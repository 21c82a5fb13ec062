//! Keeping walkers from passing between a severance and the streets that run into it.
//!
//! Where only severances and streets with traffic meet, each such street is cut loose from the
//! intersection: it now ends at a copy of the intersection that holds this one street alone.

use crate::graph::{earlier, same_but_ends, Graph, Intersection, IntersectionID, RoadID};
use crate::profiles::RoadKind;
use vstd::prelude::*;

verus! {

/// The intersection `i` is one to take apart: severances and streets with traffic meet at it,
/// and no footway or crossing does.
pub open spec fn needs_split(g: Graph, i: int) -> bool {
    &&& !g.meets_walkway(i)
    &&& g.meets(i, RoadKind::Severance)
    &&& g.meets(i, RoadKind::WithTraffic)
}

/// The road `r` is cut loose from the intersection `end`.
pub open spec fn detached(g: Graph, r: int, end: int) -> bool {
    g.roads@[r].kind == RoadKind::WithTraffic && needs_split(g, end)
}

/// The end `new_end` of the road `r` is what its end `old_end` has become: the same
/// intersection, or, where the road is cut loose, a new one at the same place that holds this
/// road alone.
pub open spec fn end_rewired(old: Graph, new: Graph, r: int, old_end: int, new_end: int) -> bool {
    if detached(old, r, old_end) {
        &&& old.intersections@.len() <= new_end < new.intersections@.len()
        &&& new.intersections@[new_end].roads@ == seq![RoadID(r as usize)]
        &&& new.intersections@[new_end].point == old.intersections@[old_end].point
        &&& new.intersections@[new_end].node == old.intersections@[old_end].node
    } else {
        new_end == old_end
    }
}

/// The road `r` of `new` is that of `old` with its ends moved where it is cut loose.
pub open spec fn road_rewired(old: Graph, new: Graph, r: int) -> bool {
    let a = old.roads@[r];
    let b = new.roads@[r];
    &&& same_but_ends(a, b)
    &&& end_rewired(old, new, r, a.src_i.0 as int, b.src_i.0 as int)
    &&& end_rewired(old, new, r, a.dst_i.0 as int, b.dst_i.0 as int)
    &&& (b.src_i == b.dst_i <==> a.src_i == a.dst_i)
}

/// The roads that stay at an intersection that is taken apart.
pub open spec fn staying(old: Graph) -> spec_fn(RoadID) -> bool {
    |id: RoadID| old.kind_of(id) != RoadKind::WithTraffic
}

/// The intersection `i` of `new` is that of `old`, without the streets that are cut loose.
pub open spec fn intersection_kept(old: Graph, new: Graph, i: int) -> bool {
    let a = old.intersections@[i];
    let b = new.intersections@[i];
    &&& b.id == a.id
    &&& b.point == a.point
    &&& b.node == a.node
    &&& b.roads@ == if needs_split(old, i) {
        a.roads@.filter(staying(old))
    } else {
        a.roads@
    }
}

/// The intersection `s` of `new` is a copy made for one street that is cut loose.
pub open spec fn is_stub(new: Graph, s: int) -> bool {
    &&& new.intersections@[s].id.0 == s
    &&& new.intersections@[s].roads@.len() == 1
    &&& new.intersections@[s].roads@[0].0 < new.roads@.len()
    &&& new.roads@[new.intersections@[s].roads@[0].0 as int].kind == RoadKind::WithTraffic
    &&& new.roads@[new.intersections@[s].roads@[0].0 as int].touches(s)
}

/// `new` is `old` after every street with traffic is cut loose from every intersection that is
/// to be taken apart. The copies come behind the intersections of `old`, in the order of the
/// roads that they are made for, the copy at the source of a road before that at its
/// destination.
pub open spec fn post_processed(old: Graph, new: Graph) -> bool {
    &&& new.roads@.len() == old.roads@.len()
    &&& new.intersections@.len() >= old.intersections@.len()
    &&& forall|r: int| 0 <= r < old.roads@.len() ==> #[trigger] road_rewired(old, new, r)
    &&& forall|i: int|
        0 <= i < old.intersections@.len() ==> #[trigger] intersection_kept(old, new, i)
    &&& forall|s: int|
        old.intersections@.len() <= s < new.intersections@.len() ==> #[trigger] is_stub(new, s)
    &&& forall|s: int, t: int|
        old.intersections@.len() <= s < t < new.intersections@.len() ==> #[trigger] earlier(new, s, t)
}

/// Taking intersections apart leaves a consistent graph consistent.
pub proof fn lemma_post_processed_wf(old: Graph, new: Graph)
    requires
        old.wf(),
        post_processed(old, new),
    ensures
        new.wf(),
{
    let n0 = old.intersections@.len() as int;
    assert forall|r: int| 0 <= r < new.roads@.len() implies #[trigger] new.road_wf(r) by {
        assert(old.road_wf(r));
        assert(road_rewired(old, new, r));
        let a = old.roads@[r];
        let b = new.roads@[r];
        let id = RoadID(r as usize);
        assert(b.id == id);
        // the source end
        if detached(old, r, a.src_i.0 as int) {
            assert(new.intersections@[b.src_i.0 as int].roads@[0] == id);
        } else {
            let i = a.src_i.0 as int;
            assert(intersection_kept(old, new, i));
            if needs_split(old, i) {
                old.intersections@[i].roads@.lemma_filter_contains_rev(staying(old), id);
                lemma_filter_keeps(old.intersections@[i].roads@, staying(old), id);
            }
        }
        // the destination end
        if detached(old, r, a.dst_i.0 as int) {
            assert(new.intersections@[b.dst_i.0 as int].roads@[0] == id);
        } else {
            let i = a.dst_i.0 as int;
            assert(intersection_kept(old, new, i));
            if needs_split(old, i) {
                lemma_filter_keeps(old.intersections@[i].roads@, staying(old), id);
            }
        }
    }
    assert forall|i: int| 0 <= i < new.intersections@.len() implies #[trigger] new.intersection_wf(
        i,
    ) by {
        if i < n0 {
            assert(old.intersection_wf(i));
            assert(intersection_kept(old, new, i));
            let before = old.intersections@[i].roads@;
            let after = new.intersections@[i].roads@;
            if needs_split(old, i) {
                lemma_filter_no_duplicates(before, staying(old));
            }
            assert forall|k: int| 0 <= k < after.len() implies {
                &&& (#[trigger] after[k]).0 < new.roads@.len()
                &&& new.roads@[after[k].0 as int].touches(i)
            } by {
                let id = after[k];
                assert(after.contains(id));
                if needs_split(old, i) {
                    before.lemma_filter_contains_rev(staying(old), id);
                    before.lemma_filter_pred(staying(old), k);
                }
                assert(before.contains(id));
                let j = choose|j: int| 0 <= j < before.len() && before[j] == id;
                assert(before[j].0 < old.roads@.len());
                let r = id.0 as int;
                assert(old.roads@[r].touches(i));
                assert(road_rewired(old, new, r));
                assert(!detached(old, r, i));
            }
        } else {
            assert(is_stub(new, i));
            let rs = new.intersections@[i].roads@;
            assert forall|a: int, b: int| 0 <= a < rs.len() && 0 <= b < rs.len() && a != b implies rs[a]
                != rs[b] by {}
        }
    }
}

/// Every copy is the new end of a street that was cut loose: there are no more copies than
/// ends that were cut loose.
pub proof fn lemma_stub_is_an_end(old: Graph, new: Graph, s: int)
    requires
        old.wf(),
        post_processed(old, new),
        old.intersections@.len() <= s < new.intersections@.len(),
    ensures
        ({
            let r = new.intersections@[s].roads@[0].0 as int;
            &&& 0 <= r < old.roads@.len()
            &&& (detached(old, r, old.roads@[r].src_i.0 as int) && new.roads@[r].src_i.0 == s) || (
            detached(old, r, old.roads@[r].dst_i.0 as int) && new.roads@[r].dst_i.0 == s)
        }),
{
    assert(is_stub(new, s));
    let r = new.intersections@[s].roads@[0].0 as int;
    assert(old.road_wf(r));
    assert(road_rewired(old, new, r));
}

/// An item that a filter lets through is in what the filter hands on.
proof fn lemma_filter_keeps(s: Seq<RoadID>, pred: spec_fn(RoadID) -> bool, id: RoadID)
    requires
        s.contains(id),
        pred(id),
    ensures
        s.filter(pred).contains(id),
{
    let j = choose|j: int| 0 <= j < s.len() && s[j] == id;
    s.lemma_filter_contains(pred, j);
}

/// A filter brings no item twice out of a sequence that holds none twice.
proof fn lemma_filter_no_duplicates(s: Seq<RoadID>, pred: spec_fn(RoadID) -> bool)
    requires
        s.no_duplicates(),
    ensures
        s.filter(pred).no_duplicates(),
    decreases s.len(),
{
    reveal(Seq::filter);
    if s.len() > 0 {
        let rest = s.drop_last();
        lemma_filter_no_duplicates(rest, pred);
        if pred(s.last()) {
            let f = rest.filter(pred);
            if f.contains(s.last()) {
                rest.lemma_filter_contains_rev(pred, s.last());
                let j = choose|j: int| 0 <= j < rest.len() && rest[j] == s.last();
                assert(s[j] == s[s.len() - 1]);
            }
            assert forall|a: int, b: int|
                0 <= a < f.push(s.last()).len() && 0 <= b < f.push(s.last()).len() && a
                    != b implies f.push(s.last())[a] != f.push(s.last())[b] by {
                if a < f.len() && b < f.len() {
                } else if a < f.len() {
                    assert(f.contains(f[a]));
                } else if b < f.len() {
                    assert(f.contains(f[b]));
                }
            }
        }
    }
}

/// After intersections are taken apart, a severance and a street with traffic meet only where
/// a footway or a crossing meets them too.
pub proof fn lemma_severance_isolation(old: Graph, new: Graph, i: int)
    requires
        old.wf(),
        post_processed(old, new),
        0 <= i < new.intersections@.len(),
        !new.meets_walkway(i),
    ensures
        !(new.meets(i, RoadKind::Severance) && new.meets(i, RoadKind::WithTraffic)),
{
    let n0 = old.intersections@.len() as int;
    let after = new.intersections@[i].roads@;
    if i >= n0 {
        assert(is_stub(new, i));
        if new.meets(i, RoadKind::Severance) {
            let k = choose|k: int|
                0 <= k < after.len() && new.kind_of(#[trigger] after[k]) == RoadKind::Severance;
            assert(k == 0);
        }
    } else {
        assert(old.intersection_wf(i));
        assert(intersection_kept(old, new, i));
        let before = old.intersections@[i].roads@;
        assert forall|k: int| 0 <= k < before.len() implies old.kind_of(#[trigger] before[k])
            == new.kind_of(before[k]) by {
            assert(road_rewired(old, new, before[k].0 as int));
        }
        if needs_split(old, i) {
            if new.meets(i, RoadKind::WithTraffic) {
                let k = choose|k: int|
                    0 <= k < after.len() && new.kind_of(#[trigger] after[k])
                        == RoadKind::WithTraffic;
                before.lemma_filter_pred(staying(old), k);
                assert(after.contains(after[k]));
                before.lemma_filter_contains_rev(staying(old), after[k]);
                let j = choose|j: int| 0 <= j < before.len() && before[j] == after[k];
                assert(old.kind_of(before[j]) == new.kind_of(before[j]));
            }
        } else {
            if new.meets(i, RoadKind::Severance) && new.meets(i, RoadKind::WithTraffic) {
                let ks = choose|k: int|
                    0 <= k < after.len() && new.kind_of(#[trigger] after[k]) == RoadKind::Severance;
                let kw = choose|k: int|
                    0 <= k < after.len() && new.kind_of(#[trigger] after[k])
                        == RoadKind::WithTraffic;
                assert(old.kind_of(before[ks]) == RoadKind::Severance);
                assert(old.kind_of(before[kw]) == RoadKind::WithTraffic);
                assert(old.meets(i, RoadKind::Severance));
                assert(old.meets(i, RoadKind::WithTraffic));
                if old.meets_walkway(i) {
                    let k = choose|k: int|
                        0 <= k < before.len() && !(old.kind_of(#[trigger] before[k]) is Severance)
                            && !(old.kind_of(before[k]) is WithTraffic);
                    assert(new.kind_of(after[k]) == old.kind_of(before[k]));
                    assert(new.meets_walkway(i));
                }
            }
        }
    }
}

/// Whether the intersection `i` is to be taken apart.
pub fn should_split(g: &Graph, i: usize) -> (split: bool)
    requires
        g.wf(),
        i < g.intersections@.len(),
    ensures
        split == needs_split(*g, i as int),
{
    let mut severance = false;
    let mut with_traffic = false;
    let mut walkway = false;
    let mut k: usize = 0;
    assert(g.intersection_wf(i as int));
    let ghost rs = g.intersections@[i as int].roads@;
    while k < g.intersections[i].roads.len()
        invariant
            k <= rs.len(),
            i < g.intersections@.len(),
            rs == g.intersections@[i as int].roads@,
            g.intersection_wf(i as int),
            severance <==> exists|j: int|
                0 <= j < k && g.kind_of(#[trigger] rs[j]) == RoadKind::Severance,
            with_traffic <==> exists|j: int|
                0 <= j < k && g.kind_of(#[trigger] rs[j]) == RoadKind::WithTraffic,
            walkway <==> exists|j: int|
                0 <= j < k && !(g.kind_of(#[trigger] rs[j]) is Severance) && !(g.kind_of(
                    rs[j],
                ) is WithTraffic),
        decreases rs.len() - k,
    {
        let id = g.intersections[i].roads[k];
        assert(id == rs[k as int]);
        match g.roads[id.0].kind {
            RoadKind::Severance => {
                severance = true;
            },
            RoadKind::WithTraffic => {
                with_traffic = true;
            },
            _ => {
                walkway = true;
            },
        }
        k += 1;
    }
    !walkway && severance && with_traffic
}

/// Makes a copy of the intersection `at` that holds the road `road` alone, and returns where
/// the copy stands.
fn mint_stub(graph: &mut Graph, at: usize, road: usize) -> (stub: usize)
    requires
        at < old(graph).intersections@.len(),
    ensures
        final(graph).roads == old(graph).roads,
        stub == old(graph).intersections@.len(),
        final(graph).intersections@.len() == stub + 1,
        final(graph).intersections@.take(stub as int) == old(graph).intersections@,
        final(graph).intersections@[stub as int].id.0 == stub,
        final(graph).intersections@[stub as int].roads@ == seq![RoadID(road)],
        final(graph).intersections@[stub as int].point == old(graph).intersections@[at as int].point,
        final(graph).intersections@[stub as int].node == old(graph).intersections@[at as int].node,
{
    let stub = graph.intersections.len();
    let mut roads: Vec<RoadID> = Vec::new();
    roads.push(RoadID(road));
    let copy = Intersection {
        id: IntersectionID(stub),
        point: graph.intersections[at].point,
        node: graph.intersections[at].node,
        roads,
    };
    graph.intersections.push(copy);
    assert(graph.intersections@.take(stub as int) =~= old(graph).intersections@);
    assert(graph.intersections@[stub as int].roads@ =~= seq![RoadID(road)]);
    stub
}

/// The roads of `list` that stay at an intersection that is taken apart.
fn keep_staying(graph: &Graph, list: &Vec<RoadID>, Ghost(old): Ghost<Graph>) -> (kept: Vec<RoadID>)
    requires
        graph.roads@.len() == old.roads@.len(),
        forall|k: int| 0 <= k < list@.len() ==> (#[trigger] list@[k]).0 < graph.roads@.len(),
        forall|r: int| 0 <= r < graph.roads@.len() ==> (#[trigger] graph.roads@[r]).kind == old.roads@[r].kind,
    ensures
        kept@ == list@.filter(staying(old)),
{
    let mut kept: Vec<RoadID> = Vec::new();
    let mut k: usize = 0;
    assert(list@.take(0) =~= Seq::<RoadID>::empty());
    proof {
        reveal(Seq::filter);
    }
    while k < list.len()
        invariant
            k <= list@.len(),
            graph.roads@.len() == old.roads@.len(),
            forall|j: int| 0 <= j < list@.len() ==> (#[trigger] list@[j]).0 < graph.roads@.len(),
            forall|r: int|
                0 <= r < graph.roads@.len() ==> (#[trigger] graph.roads@[r]).kind
                    == old.roads@[r].kind,
            kept@ == list@.take(k as int).filter(staying(old)),
        decreases list@.len() - k,
    {
        let id = list[k];
        proof {
            assert(list@.take(k + 1) =~= list@.take(k as int).push(id));
            list@.take(k as int).lemma_filter_push(id, staying(old));
        }
        match graph.roads[id.0].kind {
            RoadKind::WithTraffic => {},
            _ => {
                kept.push(id);
            },
        }
        k += 1;
    }
    assert(list@.take(k as int) =~= list@);
    kept
}

/// Takes apart every intersection at which only severances and streets with traffic meet: each
/// such street then ends at a copy of the intersection, which holds this street alone, and the
/// intersection keeps its severances.
pub fn post_process_graph(graph: &mut Graph)
    requires
        old(graph).wf(),
    ensures
        post_processed(*old(graph), *final(graph)),
        final(graph).wf(),
{
    let ghost g0 = *graph;
    let n0 = graph.intersections.len();
    let mut split: Vec<bool> = Vec::new();
    let mut i: usize = 0;
    while i < n0
        invariant
            i <= n0,
            n0 == graph.intersections@.len(),
            *graph == g0,
            g0.wf(),
            split@.len() == i,
            forall|j: int| 0 <= j < i ==> split@[j] == needs_split(g0, j),
        decreases n0 - i,
    {
        let b = should_split(graph, i);
        split.push(b);
        i += 1;
    }
    let mut r: usize = 0;
    while r < graph.roads.len()
        invariant
            g0.wf(),
            n0 == g0.intersections@.len(),
            split@.len() == n0,
            forall|j: int| 0 <= j < n0 ==> split@[j] == needs_split(g0, j),
            r <= graph.roads@.len(),
            graph.roads@.len() == g0.roads@.len(),
            graph.intersections@.len() >= n0,
            graph.intersections@.take(n0 as int) == g0.intersections@,
            forall|j: int| r <= j < graph.roads@.len() ==> graph.roads@[j] == g0.roads@[j],
            forall|j: int| 0 <= j < r ==> #[trigger] road_rewired(g0, *graph, j),
            forall|s: int| n0 <= s < graph.intersections@.len() ==> #[trigger] is_stub(*graph, s),
            forall|s: int|
                n0 <= s < graph.intersections@.len() ==> (#[trigger] graph.intersections@[s]).roads@[0].0
                    < r,
            forall|s: int, t: int|
                n0 <= s < t < graph.intersections@.len() ==> #[trigger] earlier(*graph, s, t),
        decreases graph.roads@.len() - r,
    {
        let ghost before = *graph;
        assert(g0.road_wf(r as int));
        let src = graph.roads[r].src_i.0;
        let dst = graph.roads[r].dst_i.0;
        let with_traffic = match graph.roads[r].kind {
            RoadKind::WithTraffic => true,
            _ => false,
        };
        if with_traffic && split[src] {
            assert(graph.intersections@.take(n0 as int)[src as int] == graph.intersections@[src as int]);
            let stub = mint_stub(graph, src, r);
            graph.roads[r].src_i = IntersectionID(stub);
            if dst == src {
                graph.roads[r].dst_i = IntersectionID(stub);
            }
        }
        if with_traffic && dst != src && split[dst] {
            assert(graph.intersections@.take(n0 as int)[dst as int] == graph.intersections@[dst as int]);
            let stub = mint_stub(graph, dst, r);
            graph.roads[r].dst_i = IntersectionID(stub);
        }
        proof {
            assert(graph.intersections@.take(n0 as int) =~= g0.intersections@);
            assert forall|j: int| 0 <= j < r implies #[trigger] road_rewired(g0, *graph, j) by {
                assert(road_rewired(g0, before, j));
                assert(graph.roads@[j] == before.roads@[j]);
            }
            assert forall|s: int| n0 <= s < graph.intersections@.len() implies #[trigger] is_stub(
                *graph,
                s,
            ) by {
                if s < before.intersections@.len() {
                    assert(is_stub(before, s));
                    assert(graph.intersections@[s] == before.intersections@[s]);
                    let q = before.intersections@[s].roads@[0].0 as int;
                    if q == r {
                        assert(before.roads@[q] == g0.roads@[q]);
                        assert(false);
                    }
                }
            }
            assert(road_rewired(g0, *graph, r as int));
            assert forall|s: int| n0 <= s < graph.intersections@.len() implies (
            #[trigger] graph.intersections@[s]).roads@[0].0 < r + 1 by {
                if s < before.intersections@.len() {
                    assert(graph.intersections@[s] == before.intersections@[s]);
                }
            }
            assert forall|s: int, t: int| n0 <= s < t < graph.intersections@.len() implies #[trigger] earlier(
                *graph,
                s,
                t,
            ) by {
                if t < before.intersections@.len() {
                    assert(earlier(before, s, t));
                    assert(graph.intersections@[s] == before.intersections@[s]);
                    assert(graph.intersections@[t] == before.intersections@[t]);
                    let q = before.intersections@[s].roads@[0].0 as int;
                    assert(q < r);
                    assert(graph.roads@[q] == before.roads@[q]);
                } else if s < before.intersections@.len() {
                    assert(graph.intersections@[s] == before.intersections@[s]);
                    assert(before.intersections@[s].roads@[0].0 < r);
                }
            }
        }
        r += 1;
    }
    let ghost g2 = *graph;
    let mut i: usize = 0;
    while i < n0
        invariant
            g0.wf(),
            n0 == g0.intersections@.len(),
            split@.len() == n0,
            forall|j: int| 0 <= j < n0 ==> split@[j] == needs_split(g0, j),
            i <= n0,
            graph.roads == g2.roads,
            graph.roads@.len() == g0.roads@.len(),
            graph.intersections@.len() == g2.intersections@.len(),
            graph.intersections@.len() >= n0,
            forall|j: int| 0 <= j < g0.roads@.len() ==> #[trigger] road_rewired(g0, g2, j),
            forall|s: int, t: int|
                n0 <= s < t < g2.intersections@.len() ==> #[trigger] earlier(g2, s, t),
            forall|j: int| 0 <= j < i ==> #[trigger] intersection_kept(g0, *graph, j),
            forall|j: int| i <= j < n0 ==> graph.intersections@[j] == g0.intersections@[j],
            forall|j: int|
                n0 <= j < graph.intersections@.len() ==> graph.intersections@[j]
                    == g2.intersections@[j],
        decreases n0 - i,
    {
        let ghost before = *graph;
        if split[i] {
            assert(g0.intersection_wf(i as int));
            assert forall|r: int| 0 <= r < graph.roads@.len() implies (#[trigger] graph.roads@[r]).kind
                == g0.roads@[r].kind by {
                assert(road_rewired(g0, g2, r));
            }
            let kept = keep_staying(graph, &graph.intersections[i].roads, Ghost(g0));
            graph.intersections[i].roads = kept;
        }
        proof {
            assert(intersection_kept(g0, *graph, i as int));
            assert forall|j: int| 0 <= j < i implies #[trigger] intersection_kept(g0, *graph, j) by {
                assert(intersection_kept(g0, before, j));
                assert(graph.intersections@[j] == before.intersections@[j]);
            }
        }
        i += 1;
    }
    proof {
        assert forall|r: int| 0 <= r < g0.roads@.len() implies #[trigger] road_rewired(
            g0,
            *graph,
            r,
        ) by {
            assert(road_rewired(g0, g2, r));
        }
        assert forall|s: int| n0 <= s < graph.intersections@.len() implies #[trigger] is_stub(
            *graph,
            s,
        ) by {
            assert(is_stub(g2, s));
        }
        assert forall|s: int, t: int| n0 <= s < t < graph.intersections@.len() implies #[trigger] earlier(
            *graph,
            s,
            t,
        ) by {
            assert(earlier(g2, s, t));
        }
        lemma_post_processed_wf(g0, *graph);
    }
}

} // verus!
