//! Least-cost walks through the graph.
//!
//! Costs are found by relaxing every road in turn until no road improves anything. Each
//! intersection that is reached keeps the walk that reaches it, so that a cost is never claimed
//! without a walk to show for it.

use crate::error::Error;
use crate::geometry::{
    dist2, isqrt, line_length, segment_len, segment_length, squared_distance, Pt,
};
use crate::graph::{Direction, Graph, IntersectionID, RoadID, Walker};
use crate::tags::str_eq;
use vstd::prelude::*;

verus! {

/// One road of a walk, and the direction in which it is taken.
#[derive(Clone, Copy, Debug, PartialEq, Eq, Structural)]
pub struct PathStep {
    pub road: RoadID,
    /// Whether the road is walked from its source to its destination.
    pub forwards: bool,
}

/// Whether `access` lets a walker take a road in the given direction.
pub open spec fn allowed(access: Direction, forwards: bool) -> bool {
    match access {
        Direction::Both => true,
        Direction::Forward => forwards,
        Direction::Backward => !forwards,
        Direction::Neither => false,
    }
}

/// The step names a road of the graph that `walker` may take in the step's direction.
pub open spec fn step_ok(g: Graph, walker: Walker, step: PathStep) -> bool {
    &&& step.road.0 < g.roads@.len()
    &&& allowed(g.roads@[step.road.0 as int].travel_of(walker).access, step.forwards)
}

/// The intersection at which the step starts.
pub open spec fn step_from(g: Graph, step: PathStep) -> int {
    if step.forwards {
        g.roads@[step.road.0 as int].src_i.0 as int
    } else {
        g.roads@[step.road.0 as int].dst_i.0 as int
    }
}

/// The intersection at which the step ends.
pub open spec fn step_to(g: Graph, step: PathStep) -> int {
    if step.forwards {
        g.roads@[step.road.0 as int].dst_i.0 as int
    } else {
        g.roads@[step.road.0 as int].src_i.0 as int
    }
}

/// What the step costs `walker`, in milliseconds.
pub open spec fn step_cost(g: Graph, walker: Walker, step: PathStep) -> nat {
    g.roads@[step.road.0 as int].travel_of(walker).cost as nat
}

/// `steps` is a walk that `walker` may take from the intersection `from` to the intersection
/// `to`: each step starts where the one before it ends.
pub open spec fn is_path(g: Graph, walker: Walker, from: int, steps: Seq<PathStep>, to: int) -> bool
    decreases steps.len(),
{
    &&& 0 <= to < g.intersections@.len()
    &&& if steps.len() == 0 {
        from == to
    } else {
        &&& step_ok(g, walker, steps.last())
        &&& step_to(g, steps.last()) == to
        &&& is_path(g, walker, from, steps.drop_last(), step_from(g, steps.last()))
    }
}

/// What a walk costs `walker`, in milliseconds.
pub open spec fn path_cost(g: Graph, walker: Walker, steps: Seq<PathStep>) -> nat
    decreases steps.len(),
{
    if steps.len() == 0 {
        0
    } else {
        path_cost(g, walker, steps.drop_last()) + step_cost(g, walker, steps.last())
    }
}

/// `steps` is a walk from one of `roots` to `to`.
pub open spec fn rooted(
    g: Graph,
    walker: Walker,
    roots: Seq<IntersectionID>,
    steps: Seq<PathStep>,
    to: int,
) -> bool {
    exists|k: int| 0 <= k < roots.len() && is_path(g, walker, (#[trigger] roots[k]).0 as int, steps, to)
}

/// What a search has found: for every intersection the least cost at which it is reached, if
/// it is reached within the limit, and a walk of that cost.
#[derive(Debug)]
pub struct Reach {
    pub cost: Vec<Option<u64>>,
    pub path: Vec<Vec<PathStep>>,
}

/// The cost that `found` gives for the intersection `v` is the least cost of a walk from one
/// of `roots` to `v`, and `walk` is a walk of that cost; or no walk of a cost within `limit`
/// leads there.
pub open spec fn least_cost(
    g: Graph,
    walker: Walker,
    roots: Seq<IntersectionID>,
    limit: u64,
    v: int,
    found: Option<u64>,
    walk: Seq<PathStep>,
) -> bool {
    match found {
        Some(d) => {
            &&& d <= limit
            &&& rooted(g, walker, roots, walk, v)
            &&& path_cost(g, walker, walk) == d
            &&& forall|k: int, steps: Seq<PathStep>|
                0 <= k < roots.len() && #[trigger] is_path(
                    g,
                    walker,
                    roots[k].0 as int,
                    steps,
                    v,
                ) ==> d <= path_cost(g, walker, steps)
        },
        None => forall|k: int, steps: Seq<PathStep>|
            0 <= k < roots.len() && #[trigger] is_path(g, walker, roots[k].0 as int, steps, v)
                ==> path_cost(g, walker, steps) > limit,
    }
}

impl Reach {
    /// The search has an answer for every intersection, and each answer is right.
    pub open spec fn answers(
        self,
        g: Graph,
        walker: Walker,
        roots: Seq<IntersectionID>,
        limit: u64,
    ) -> bool {
        &&& self.cost@.len() == g.intersections@.len()
        &&& self.path@.len() == g.intersections@.len()
        &&& forall|v: int|
            0 <= v < g.intersections@.len() ==> least_cost(
                g,
                walker,
                roots,
                limit,
                v,
                #[trigger] self.cost@[v],
                self.path@[v]@,
            )
    }

    /// Every cost that the search holds so far is within the limit and is that of the walk
    /// kept beside it, which starts at a root.
    spec fn sound(self, g: Graph, walker: Walker, roots: Seq<IntersectionID>, limit: u64) -> bool {
        &&& self.cost@.len() == g.intersections@.len()
        &&& self.path@.len() == g.intersections@.len()
        &&& forall|v: int|
            0 <= v < g.intersections@.len() ==> (#[trigger] self.cost@[v] matches Some(d) ==> {
                &&& d <= limit
                &&& rooted(g, walker, roots, self.path@[v]@, v)
                &&& path_cost(g, walker, self.path@[v]@) == d
            })
        &&& forall|k: int|
            0 <= k < roots.len() && (#[trigger] roots[k]).0 < g.intersections@.len()
                ==> self.cost@[roots[k].0 as int] == Some(0u64)
    }
}

/// How far a cost is from the least it could be made. An intersection not reached yet counts for
/// more than any cost within the limit.
spec fn slack(cost: Option<u64>, limit: u64) -> nat {
    match cost {
        Some(d) => d as nat,
        None => limit as nat + 1,
    }
}

/// The slack of all costs together: what a search has left to lose.
spec fn total_slack(costs: Seq<Option<u64>>, limit: u64) -> nat
    decreases costs.len(),
{
    if costs.len() == 0 {
        0
    } else {
        total_slack(costs.drop_last(), limit) + slack(costs.last(), limit)
    }
}

proof fn lemma_slack_falls(costs: Seq<Option<u64>>, limit: u64, v: int, better: Option<u64>)
    requires
        0 <= v < costs.len(),
        slack(better, limit) < slack(costs[v], limit),
    ensures
        total_slack(costs.update(v, better), limit) < total_slack(costs, limit),
    decreases costs.len(),
{
    let after = costs.update(v, better);
    if v == costs.len() - 1 {
        assert(after.drop_last() =~= costs.drop_last());
    } else {
        assert(after.drop_last() =~= costs.drop_last().update(v, better));
        lemma_slack_falls(costs.drop_last(), limit, v, better);
    }
}

/// Going from `u` to `v` at the cost `c` improves nothing: where `u` is reached and the step
/// stays within the limit, `v` is reached at no more than the cost of `u` and `c` together.
spec fn settled(costs: Seq<Option<u64>>, limit: u64, u: int, v: int, c: nat) -> bool {
    costs[u] matches Some(du) ==> du + c <= limit ==> (costs[v] matches Some(dv) && dv <= du + c)
}

/// Neither direction of the road `r` improves anything.
spec fn road_settled(g: Graph, walker: Walker, costs: Seq<Option<u64>>, limit: u64, r: int) -> bool {
    let road = g.roads@[r];
    let t = road.travel_of(walker);
    &&& allowed(t.access, true) ==> settled(
        costs,
        limit,
        road.src_i.0 as int,
        road.dst_i.0 as int,
        t.cost as nat,
    )
    &&& allowed(t.access, false) ==> settled(
        costs,
        limit,
        road.dst_i.0 as int,
        road.src_i.0 as int,
        t.cost as nat,
    )
}

/// Once no road improves anything, no walk within the limit beats the cost that is held.
proof fn lemma_settled_is_least(
    g: Graph,
    walker: Walker,
    roots: Seq<IntersectionID>,
    limit: u64,
    reach: Reach,
    k: int,
    steps: Seq<PathStep>,
    v: int,
)
    requires
        g.wf(),
        reach.sound(g, walker, roots, limit),
        forall|r: int| 0 <= r < g.roads@.len() ==> #[trigger] road_settled(g, walker, reach.cost@, limit, r),
        0 <= k < roots.len(),
        is_path(g, walker, roots[k].0 as int, steps, v),
        path_cost(g, walker, steps) <= limit,
    ensures
        reach.cost@[v] matches Some(d) && d <= path_cost(g, walker, steps),
    decreases steps.len(),
{
    if steps.len() > 0 {
        let last = steps.last();
        let u = step_from(g, last);
        lemma_settled_is_least(g, walker, roots, limit, reach, k, steps.drop_last(), u);
        let r = last.road.0 as int;
        assert(road_settled(g, walker, reach.cost@, limit, r));
        assert(g.road_wf(r));
    }
}

/// A walk goes on by one step from where it ends.
proof fn lemma_path_extends(
    g: Graph,
    walker: Walker,
    roots: Seq<IntersectionID>,
    steps: Seq<PathStep>,
    step: PathStep,
)
    requires
        g.wf(),
        step_ok(g, walker, step),
        rooted(g, walker, roots, steps, step_from(g, step)),
    ensures
        rooted(g, walker, roots, steps.push(step), step_to(g, step)),
        path_cost(g, walker, steps.push(step)) == path_cost(g, walker, steps) + step_cost(
            g,
            walker,
            step,
        ),
{
    let k = choose|k: int|
        0 <= k < roots.len() && is_path(g, walker, (#[trigger] roots[k]).0 as int, steps, step_from(g, step));
    assert(steps.push(step).drop_last() =~= steps);
    assert(g.road_wf(step.road.0 as int));
    assert(is_path(g, walker, roots[k].0 as int, steps.push(step), step_to(g, step)));
}

fn copy_steps(steps: &Vec<PathStep>) -> (copy: Vec<PathStep>)
    ensures
        copy@ == steps@,
{
    let mut copy: Vec<PathStep> = Vec::new();
    let mut i: usize = 0;
    while i < steps.len()
        invariant
            i <= steps@.len(),
            copy@ == steps@.take(i as int),
        decreases steps@.len() - i,
    {
        copy.push(steps[i]);
        assert(steps@.take(i + 1) =~= steps@.take(i as int).push(steps@[i as int]));
        i += 1;
    }
    assert(steps@.take(i as int) =~= steps@);
    copy
}

/// Takes `step` from where it starts, if that improves the cost of where it ends.
fn relax(
    g: &Graph,
    walker: Walker,
    Ghost(roots): Ghost<Seq<IntersectionID>>,
    limit: u64,
    reach: &mut Reach,
    step: PathStep,
) -> (changed: bool)
    requires
        g.wf(),
        old(reach).sound(*g, walker, roots, limit),
        step_ok(*g, walker, step),
    ensures
        final(reach).sound(*g, walker, roots, limit),
        !changed ==> *final(reach) == *old(reach),
        !changed ==> settled(
            final(reach).cost@,
            limit,
            step_from(*g, step),
            step_to(*g, step),
            step_cost(*g, walker, step),
        ),
        changed ==> total_slack(final(reach).cost@, limit) < total_slack(old(reach).cost@, limit),
{
    assert(g.road_wf(step.road.0 as int));
    let road = &g.roads[step.road.0];
    let c = road.travel(walker).cost;
    let (u, v) = if step.forwards {
        (road.src_i.0, road.dst_i.0)
    } else {
        (road.dst_i.0, road.src_i.0)
    };
    let du = match reach.cost[u] {
        Some(du) => du,
        None => {
            return false;
        },
    };
    let nd = match du.checked_add(c) {
        Some(nd) => nd,
        None => {
            return false;
        },
    };
    if nd > limit {
        return false;
    }
    let better = match reach.cost[v] {
        Some(dv) => nd < dv,
        None => true,
    };
    if !better {
        return false;
    }
    let mut walk = copy_steps(&reach.path[u]);
    walk.push(step);
    proof {
        lemma_path_extends(*g, walker, roots, old(reach).path@[u as int]@, step);
        lemma_slack_falls(old(reach).cost@, limit, v as int, Some(nd));
    }
    reach.cost[v] = Some(nd);
    reach.path[v] = walk;
    assert(reach.cost@ == old(reach).cost@.update(v as int, Some(nd)));
    true
}

/// Finds, for every intersection, the least cost at which `walker` reaches it from one of
/// `roots`, as far as that cost is within `limit`, and a walk of that cost.
pub fn search(g: &Graph, walker: Walker, roots: &Vec<IntersectionID>, limit: u64) -> (reach: Reach)
    requires
        g.wf(),
    ensures
        reach.answers(*g, walker, roots@, limit),
{
    let n = g.intersections.len();
    let mut reach = Reach { cost: Vec::new(), path: Vec::new() };
    let mut i: usize = 0;
    while i < n
        invariant
            i <= n,
            reach.cost@.len() == i,
            reach.path@.len() == i,
            forall|v: int| 0 <= v < i ==> #[trigger] reach.cost@[v] is None,
        decreases n - i,
    {
        reach.cost.push(None);
        reach.path.push(Vec::new());
        i += 1;
    }
    let mut k: usize = 0;
    while k < roots.len()
        invariant
            n == g.intersections@.len(),
            k <= roots@.len(),
            reach.cost@.len() == n,
            reach.path@.len() == n,
            forall|v: int|
                0 <= v < n ==> (#[trigger] reach.cost@[v] matches Some(d) ==> {
                    &&& d == 0
                    &&& rooted(*g, walker, roots@, reach.path@[v]@, v)
                    &&& path_cost(*g, walker, reach.path@[v]@) == d
                }),
            forall|j: int|
                0 <= j < k && (#[trigger] roots@[j]).0 < n ==> reach.cost@[roots@[j].0 as int] == Some(
                    0u64,
                ),
        decreases roots@.len() - k,
    {
        let root = roots[k].0;
        if root < n {
            reach.cost[root] = Some(0);
            reach.path[root] = Vec::new();
            assert(is_path(*g, walker, roots@[k as int].0 as int, reach.path@[root as int]@, root as int));
        }
        k += 1;
    }
    let mut done = false;
    while !done
        invariant
            g.wf(),
            reach.sound(*g, walker, roots@, limit),
            done ==> forall|r: int|
                0 <= r < g.roads@.len() ==> #[trigger] road_settled(*g, walker, reach.cost@, limit, r),
        decreases
                (if done {
                    0
                } else {
                    total_slack(reach.cost@, limit) + 1
                }),
    {
        let ghost start = reach.cost@;
        let mut changed = false;
        let mut r: usize = 0;
        while r < g.roads.len()
            invariant
                g.wf(),
                r <= g.roads@.len(),
                reach.sound(*g, walker, roots@, limit),
                total_slack(reach.cost@, limit) <= total_slack(start, limit),
                changed ==> total_slack(reach.cost@, limit) < total_slack(start, limit),
                !changed ==> forall|j: int|
                    0 <= j < r ==> #[trigger] road_settled(*g, walker, reach.cost@, limit, j),
            decreases g.roads@.len() - r,
        {
            let access = g.roads[r].travel(walker).access;
            let forwards = match access {
                Direction::Both => true,
                Direction::Forward => true,
                _ => false,
            };
            let backwards = match access {
                Direction::Both => true,
                Direction::Backward => true,
                _ => false,
            };
            if forwards {
                let moved = relax(
                    g,
                    walker,
                    Ghost(roots@),
                    limit,
                    &mut reach,
                    PathStep { road: RoadID(r), forwards: true },
                );
                changed = changed || moved;
            }
            if backwards {
                let moved = relax(
                    g,
                    walker,
                    Ghost(roots@),
                    limit,
                    &mut reach,
                    PathStep { road: RoadID(r), forwards: false },
                );
                changed = changed || moved;
            }
            r += 1;
        }
        if !changed {
            done = true;
        }
    }
    proof {
        assert forall|v: int| 0 <= v < g.intersections@.len() implies least_cost(
            *g,
            walker,
            roots@,
            limit,
            v,
            #[trigger] reach.cost@[v],
            reach.path@[v]@,
        ) by {
            assert forall|k: int, steps: Seq<PathStep>|
                0 <= k < roots@.len() && #[trigger] is_path(
                    *g,
                    walker,
                    roots@[k].0 as int,
                    steps,
                    v,
                ) && path_cost(*g, walker, steps) <= limit implies (reach.cost@[v] matches Some(d)
                && d <= path_cost(*g, walker, steps)) by {
                lemma_settled_is_least(*g, walker, roots@, limit, reach, k, steps, v);
            }
        }
    }
    reach
}

/// A least-cost walk and what it costs, in milliseconds.
#[derive(Debug)]
pub struct Route {
    pub steps: Vec<PathStep>,
    pub cost: u64,
}

/// Finds a least-cost walk from `start` to `end`. Fails with `DegenerateInput` where the two are
/// the same intersection, and with `NoPath` where no walk whose cost fits into 64 bits leads from
/// the one to the other.
pub fn route(g: &Graph, walker: Walker, start: IntersectionID, end: IntersectionID) -> (found: Result<
    Route,
    Error,
>)
    requires
        g.wf(),
    ensures
        match found {
            Ok(route) => {
                &&& start != end
                &&& is_path(*g, walker, start.0 as int, route.steps@, end.0 as int)
                &&& route.cost == path_cost(*g, walker, route.steps@)
                &&& forall|steps: Seq<PathStep>| #[trigger]
                    is_path(*g, walker, start.0 as int, steps, end.0 as int) ==> route.cost
                        <= path_cost(*g, walker, steps)
            },
            Err(Error::DegenerateInput) => start == end,
            Err(Error::NoPath) => {
                &&& start != end
                &&& forall|steps: Seq<PathStep>| #[trigger]
                    is_path(*g, walker, start.0 as int, steps, end.0 as int) ==> path_cost(
                        *g,
                        walker,
                        steps,
                    ) > u64::MAX
            },
            Err(_) => false,
        },
{
    if start.0 == end.0 {
        return Err(Error::DegenerateInput);
    }
    if end.0 >= g.intersections.len() {
        return Err(Error::NoPath);
    }
    let mut roots: Vec<IntersectionID> = Vec::new();
    roots.push(start);
    let reach = search(g, walker, &roots, u64::MAX);
    assert(roots@[0] == start);
    assert(least_cost(
        *g,
        walker,
        roots@,
        u64::MAX,
        end.0 as int,
        reach.cost@[end.0 as int],
        reach.path@[end.0 as int]@,
    ));
    match reach.cost[end.0] {
        Some(cost) => {
            let steps = copy_steps(&reach.path[end.0]);
            Ok(Route { steps, cost })
        },
        None => Err(Error::NoPath),
    }
}

/// The walker may take the road in one direction at least.
pub open spec fn passable(g: Graph, walker: Walker, road: RoadID) -> bool {
    g.roads@[road.0 as int].travel_of(walker).access != Direction::Neither
}

/// The walker may take no road at all.
pub open spec fn stranded(g: Graph, walker: Walker) -> bool {
    forall|r: int| 0 <= r < g.roads@.len() ==> !#[trigger] passable(g, walker, RoadID(r as usize))
}

/// Where a point lands on the network: a road, how far along the road, and the end of the
/// road that is nearer.
#[derive(Clone, Copy, Debug, PartialEq, Eq, Structural)]
pub struct SnappedPosition {
    pub road: RoadID,
    pub intersection: IntersectionID,
    /// How far along the road the position lies, in millionths of the road.
    pub fraction_along: u32,
}

/// All of a road, in millionths.
pub const WHOLE: u32 = 1_000_000;

/// How far along the segment from `a` to `b` the point `p` lies, times the length of the
/// segment: nothing or less where it lies before `a`.
pub open spec fn dot(a: Pt, b: Pt, p: Pt) -> int {
    (p.x - a.x) * (b.x - a.x) + (p.y - a.y) * (b.y - a.y)
}

/// How far the point `p` lies off the line through `a` and `b`, times the distance from `a`
/// to `b`.
pub open spec fn cross_abs(a: Pt, b: Pt, p: Pt) -> nat {
    let c = (b.x - a.x) * (p.y - a.y) - (b.y - a.y) * (p.x - a.x);
    if c >= 0 {
        c as nat
    } else {
        (-c) as nat
    }
}

/// The distance from the point `p` to the segment from `a` to `b`, in whole units: that to
/// the nearer end where `p` lies before or behind the segment, that to the line otherwise.
pub open spec fn segment_distance(a: Pt, b: Pt, p: Pt) -> nat {
    if dot(a, b, p) <= 0 {
        isqrt(dist2(a, p))
    } else if dot(a, b, p) >= dist2(a, b) {
        isqrt(dist2(b, p))
    } else {
        cross_abs(a, b, p) / isqrt(dist2(a, b))
    }
}

/// How far along the segment from `a` to `b` the point of the segment lies that is nearest
/// to `p`, in whole units.
pub open spec fn projection(a: Pt, b: Pt, p: Pt) -> nat {
    let len = isqrt(dist2(a, b));
    if dot(a, b, p) <= 0 {
        0
    } else if dot(a, b, p) >= dist2(a, b) {
        len
    } else if dot(a, b, p) / (len as int) > len {
        len
    } else {
        (dot(a, b, p) / (len as int)) as nat
    }
}

/// The distance from `p` to the first `n` points of a polyline, and how far along the
/// polyline the nearest point lies: on the first segment that is as near as any.
pub open spec fn closest(line: Seq<Pt>, p: Pt, n: nat) -> (nat, nat)
    decreases n,
{
    if n < 2 {
        (isqrt(dist2(line[0], p)), 0)
    } else {
        let a = line[n - 2];
        let b = line[n - 1];
        let here = (
            segment_distance(a, b, p),
            line_length(line.take(n - 1)) + projection(a, b, p),
        );
        if n == 2 {
            here
        } else {
            let before = closest(line, p, (n - 1) as nat);
            if here.0 < before.0 {
                here
            } else {
                before
            }
        }
    }
}

/// The distance from `p` to the road `r`.
pub open spec fn road_distance(g: Graph, r: int, p: Pt) -> nat {
    closest(g.roads@[r].linestring@, p, g.roads@[r].linestring@.len()).0
}

/// How far along a polyline the point lies that is nearest to `p`, in millionths of the
/// polyline; nothing for a polyline without length.
pub open spec fn fraction_of(line: Seq<Pt>, p: Pt) -> nat {
    let total = line_length(line);
    let along = closest(line, p, line.len()).1;
    if total == 0 {
        0
    } else if along >= total {
        WHOLE as nat
    } else {
        along * (WHOLE as nat) / total
    }
}

/// `at` is where `pt` lands: on the road nearest to it among those that the walker may take,
/// at whatever distance, the first of them where several are as near; as far along the road
/// as the point of the road that is nearest to `pt`; and at the source of the road where that
/// point lies in the first half of the road, at its destination otherwise.
pub open spec fn snaps_to(g: Graph, walker: Walker, pt: Pt, at: SnappedPosition) -> bool {
    let r = at.road.0 as int;
    &&& 0 <= r < g.roads@.len()
    &&& passable(g, walker, at.road)
    &&& forall|q: int|
        0 <= q < g.roads@.len() && #[trigger] passable(g, walker, RoadID(q as usize))
            ==> road_distance(g, r, pt) <= road_distance(g, q, pt)
    &&& forall|q: int|
        0 <= q < r && #[trigger] passable(g, walker, RoadID(q as usize)) ==> road_distance(g, r, pt)
            < road_distance(g, q, pt)
    &&& at.fraction_along == fraction_of(g.roads@[r].linestring@, pt)
    &&& at.intersection == if at.fraction_along <= WHOLE / 2 {
        g.roads@[r].src_i
    } else {
        g.roads@[r].dst_i
    }
}

/// A point lands in one place only.
pub proof fn lemma_snaps_to_one_place(g: Graph, walker: Walker, pt: Pt, a: SnappedPosition, b: SnappedPosition)
    requires
        snaps_to(g, walker, pt, a),
        snaps_to(g, walker, pt, b),
    ensures
        a == b,
{
    assert(g.roads.len() == g.roads@.len());
    let ra = a.road.0 as int;
    let rb = b.road.0 as int;
    assert(passable(g, walker, RoadID(ra as usize)));
    assert(passable(g, walker, RoadID(rb as usize)));
    if ra < rb {
        assert(road_distance(g, rb, pt) < road_distance(g, ra, pt));
    }
    if rb < ra {
        assert(road_distance(g, ra, pt) < road_distance(g, rb, pt));
    }
}

fn dot_of(a: Pt, b: Pt, p: Pt) -> (v: i128)
    ensures
        v == dot(a, b, p),
        -0x2_0000_0000_0000_0000 <= v <= 0x2_0000_0000_0000_0000,
{
    let px: i128 = p.x as i128 - a.x as i128;
    let py: i128 = p.y as i128 - a.y as i128;
    let bx: i128 = b.x as i128 - a.x as i128;
    let by: i128 = b.y as i128 - a.y as i128;
    assert(-0x1_0000_0000 * 0x1_0000_0000 <= px * bx <= 0x1_0000_0000 * 0x1_0000_0000)
        by (nonlinear_arith)
        requires
            -0x1_0000_0000 <= px <= 0x1_0000_0000,
            -0x1_0000_0000 <= bx <= 0x1_0000_0000,
    ;
    assert(-0x1_0000_0000 * 0x1_0000_0000 <= py * by <= 0x1_0000_0000 * 0x1_0000_0000)
        by (nonlinear_arith)
        requires
            -0x1_0000_0000 <= py <= 0x1_0000_0000,
            -0x1_0000_0000 <= by <= 0x1_0000_0000,
    ;
    px * bx + py * by
}

fn cross_abs_of(a: Pt, b: Pt, p: Pt) -> (v: u128)
    ensures
        v == cross_abs(a, b, p),
{
    let px: i128 = p.x as i128 - a.x as i128;
    let py: i128 = p.y as i128 - a.y as i128;
    let bx: i128 = b.x as i128 - a.x as i128;
    let by: i128 = b.y as i128 - a.y as i128;
    assert(-0x1_0000_0000 * 0x1_0000_0000 <= bx * py <= 0x1_0000_0000 * 0x1_0000_0000)
        by (nonlinear_arith)
        requires
            -0x1_0000_0000 <= py <= 0x1_0000_0000,
            -0x1_0000_0000 <= bx <= 0x1_0000_0000,
    ;
    assert(-0x1_0000_0000 * 0x1_0000_0000 <= by * px <= 0x1_0000_0000 * 0x1_0000_0000)
        by (nonlinear_arith)
        requires
            -0x1_0000_0000 <= px <= 0x1_0000_0000,
            -0x1_0000_0000 <= by <= 0x1_0000_0000,
    ;
    let c: i128 = bx * py - by * px;
    if c >= 0 {
        c as u128
    } else {
        (-c) as u128
    }
}

/// The distance from a point to a segment, and how far along the segment the nearest point
/// lies.
pub fn snap_to_segment(a: Pt, b: Pt, p: Pt) -> (found: (u128, u64))
    ensures
        found.0 == segment_distance(a, b, p),
        found.1 == projection(a, b, p),
        found.1 <= segment_length(a, b),
{
    let d = dot_of(a, b, p);
    let len2 = squared_distance(a, b);
    let len = segment_len(a, b);
    if d <= 0 {
        (segment_len(a, p) as u128, 0)
    } else if d as u128 >= len2 {
        (segment_len(b, p) as u128, len)
    } else {
        proof {
            crate::geometry::lemma_isqrt(dist2(a, b));
            if len == 0 {
                assert(dist2(a, b) < 1) by (nonlinear_arith)
                    requires
                        crate::geometry::is_isqrt(dist2(a, b), 0),
                ;
            }
        }
        let off = cross_abs_of(a, b, p) / (len as u128);
        let along = d as u128 / (len as u128);
        let along: u64 = if along > len as u128 {
            len
        } else {
            along as u64
        };
        (off, along)
    }
}

/// The distance from a point to a polyline, and how far along the polyline the nearest point
/// lies.
pub fn snap_to_line(line: &Vec<Pt>, p: Pt) -> (found: (u128, u128))
    requires
        line@.len() > 0,
    ensures
        found.0 == closest(line@, p, line@.len()).0,
        found.1 == closest(line@, p, line@.len()).1,
{
    if line.len() < 2 {
        return (segment_len(line[0], p) as u128, 0);
    }
    let first = snap_to_segment(line[0], line[1], p);
    assert(line@.take(1).len() < 2);
    let mut best: (u128, u128) = (first.0, first.1 as u128);
    let mut walked: u128 = segment_len(line[0], line[1]) as u128;
    let mut i: usize = 2;
    proof {
        let two = line@.take(2);
        assert(two.drop_last() =~= line@.take(1));
        assert(line_length(two.drop_last()) == 0);
        assert(two[two.len() - 2] == line@[0] && two.last() == line@[1]);
        assert(line_length(two) == segment_length(line@[0], line@[1]));
    }
    while i < line.len()
        invariant
            2 <= i <= line@.len(),
            best.0 == closest(line@, p, i as nat).0,
            best.1 == closest(line@, p, i as nat).1,
            walked == line_length(line@.take(i as int)),
            walked <= i * 0x2_0000_0000,
        decreases line@.len() - i,
    {
        let here = snap_to_segment(line[i - 1], line[i], p);
        let seg = segment_len(line[i - 1], line[i]);
        proof {
            let next = line@.take(i + 1);
            assert(next.drop_last() =~= line@.take(i as int));
            assert(next[next.len() - 2] == line@[i - 1]);
            assert(next.last() == line@[i as int]);
            assert(i * 0x2_0000_0000 + 0x2_0000_0000 == (i + 1) * 0x2_0000_0000) by (nonlinear_arith);
            assert(i * 0x2_0000_0000 <= 0xffff_ffff_ffff_ffff * 0x2_0000_0000) by (nonlinear_arith)
                requires
                    i <= 0xffff_ffff_ffff_ffff,
            ;
        }
        if here.0 < best.0 {
            best = (here.0, walked + here.1 as u128);
        }
        walked = walked + seg as u128;
        i += 1;
    }
    best
}

/// How far along a polyline the point lies that is nearest to `p`, in millionths.
pub fn locate_fraction(line: &Vec<Pt>, p: Pt) -> (fraction: u32)
    requires
        line@.len() > 0,
    ensures
        fraction == fraction_of(line@, p),
        fraction <= WHOLE,
{
    let (_, along) = snap_to_line(line, p);
    let mut total: u128 = 0;
    let mut i: usize = 1;
    assert(line@.take(1).len() < 2);
    while i < line.len()
        invariant
            1 <= i <= line@.len(),
            total == line_length(line@.take(i as int)),
            total <= i * 0x2_0000_0000,
        decreases line@.len() - i,
    {
        let seg = segment_len(line[i - 1], line[i]);
        proof {
            let next = line@.take(i + 1);
            assert(next.drop_last() =~= line@.take(i as int));
            assert(next[next.len() - 2] == line@[i - 1]);
            assert(next.last() == line@[i as int]);
            assert(i * 0x2_0000_0000 + 0x2_0000_0000 == (i + 1) * 0x2_0000_0000) by (nonlinear_arith);
            assert(i * 0x2_0000_0000 <= 0xffff_ffff_ffff_ffff * 0x2_0000_0000) by (nonlinear_arith)
                requires
                    i <= 0xffff_ffff_ffff_ffff,
            ;
        }
        total = total + seg as u128;
        i += 1;
    }
    assert(line@.take(i as int) =~= line@);
    if total == 0 {
        0
    } else if along >= total {
        WHOLE
    } else {
        assert(along * 1_000_000 <= 0xffff_ffff_ffff_ffff * 0x2_0000_0000 * 1_000_000)
            by (nonlinear_arith)
            requires
                along < total,
                total <= 0xffff_ffff_ffff_ffff * 0x2_0000_0000,
        ;
        let f: u128 = along * (WHOLE as u128) / total;
        assert(f < 1_000_000) by (nonlinear_arith)
            requires
                f == (along * 1_000_000) / (total as int),
                0 <= along < total,
        ;
        f as u32
    }
}

/// Finds where a point lands: on the road nearest to it among those that the walker may take,
/// however far from the point that road lies. No radius bounds the search: `None` means that
/// the walker may take no road at all.
pub fn snap_to_road(g: &Graph, walker: Walker, pt: Pt) -> (found: Option<SnappedPosition>)
    requires
        g.wf(),
    ensures
        found is None <==> stranded(*g, walker),
        found matches Some(at) ==> {
            &&& snaps_to(*g, walker, pt, at)
            &&& at.fraction_along <= WHOLE
            &&& at.intersection.0 < g.intersections@.len()
        },
{
    let mut best: Option<usize> = None;
    let mut best_d: u128 = 0;
    let mut r: usize = 0;
    while r < g.roads.len()
        invariant
            g.wf(),
            r <= g.roads@.len(),
            best is None <==> forall|q: int|
                0 <= q < r ==> !#[trigger] passable(*g, walker, RoadID(q as usize)),
            best matches Some(b) ==> {
                &&& b < r
                &&& passable(*g, walker, RoadID(b))
                &&& best_d == road_distance(*g, b as int, pt)
                &&& forall|q: int|
                    0 <= q < r && #[trigger] passable(*g, walker, RoadID(q as usize)) ==> best_d
                        <= road_distance(*g, q, pt)
                &&& forall|q: int|
                    0 <= q < b && #[trigger] passable(*g, walker, RoadID(q as usize)) ==> best_d
                        < road_distance(*g, q, pt)
            },
        decreases g.roads@.len() - r,
    {
        assert(g.road_wf(r as int));
        let open = match g.roads[r].travel(walker).access {
            Direction::Neither => false,
            _ => true,
        };
        assert(open == passable(*g, walker, RoadID(r)));
        let ghost before = best;
        if open {
            let (d, _) = snap_to_line(&g.roads[r].linestring, pt);
            let nearer = match best {
                Some(_) => d < best_d,
                None => true,
            };
            if nearer {
                best = Some(r);
                best_d = d;
            }
        }
        proof {
            if best is None {
                assert forall|q: int| 0 <= q < r + 1 implies !#[trigger] passable(
                    *g,
                    walker,
                    RoadID(q as usize),
                ) by {
                    if q == r {
                        assert(RoadID(q as usize) == RoadID(r));
                    }
                }
            } else {
                let b = best.unwrap();
                assert(passable(*g, walker, RoadID((b as int) as usize)));
            }
        }
        r += 1;
    }
    match best {
        Some(b) => {
            assert(g.road_wf(b as int));
            let road = &g.roads[b];
            let fraction_along = locate_fraction(&road.linestring, pt);
            let intersection = if fraction_along <= WHOLE / 2 {
                road.src_i
            } else {
                road.dst_i
            };
            Some(SnappedPosition { road: RoadID(b), intersection, fraction_along })
        },
        None => None,
    }
}

impl Walker {
    /// The name by which the walker's profile goes.
    pub fn name(&self) -> (name: &'static str)
        ensures
            name@ == match *self {
                Walker::Walking => "walking"@,
                Walker::CrossAnywhere => "cross_anywhere"@,
            },
    {
        match self {
            Walker::Walking => "walking",
            Walker::CrossAnywhere => "cross_anywhere",
        }
    }

    /// The walker whose profile goes by `name`, or `UnknownProfile` where none does.
    pub fn from_name(name: &str) -> (found: Result<Walker, Error>)
        ensures
            match found {
                Ok(Walker::Walking) => name@ == "walking"@,
                Ok(Walker::CrossAnywhere) => name@ == "cross_anywhere"@ && name@ != "walking"@,
                Err(e) => e == Error::UnknownProfile && name@ != "walking"@ && name@
                    != "cross_anywhere"@,
            },
    {
        if str_eq(name, "walking") {
            Ok(Walker::Walking)
        } else if str_eq(name, "cross_anywhere") {
            Ok(Walker::CrossAnywhere)
        } else {
            Err(Error::UnknownProfile)
        }
    }
}

} // verus!
