//! Answering a request for a route: which roads to take, how long the walk is, and how much of
//! its time is spent walking and how much waiting.

use crate::error::Error;
use crate::geometry::{clamp_u64, line_length, polyline_length, segment_len, segment_length, Pt};
use crate::graph::{Graph, Road, Walker};
use crate::model::MapModel;
use crate::osm::WayID;
use crate::profiles::RoadKind;
use crate::router::{
    is_path, path_cost, route, snap_to_road, snaps_to, step_cost, step_from, step_ok, stranded,
    PathStep,
    SnappedPosition,
    WHOLE,
};
use crate::settings::{active_time, cost, speed, waiting_time, Settings};
use crate::tags::tag_has;
use vstd::prelude::*;

verus! {

/// Where a step stands in a walk.
#[derive(Clone, Copy, Debug, PartialEq, Eq, Structural)]
pub enum Position {
    First,
    Middle,
    Last,
    Only,
}

/// Where the step at `index` stands in a walk of `len` steps.
pub open spec fn position_of(index: int, len: int) -> Position {
    if len == 1 {
        Position::Only
    } else if index == 0 {
        Position::First
    } else if index == len - 1 {
        Position::Last
    } else {
        Position::Middle
    }
}

/// Where the step at `index` stands in a walk of `len` steps.
pub fn position(index: usize, len: usize) -> (p: Position)
    requires
        index < len,
    ensures
        p == position_of(index as int, len as int),
{
    if len == 1 {
        Position::Only
    } else if index == 0 {
        Position::First
    } else if index == len - 1 {
        Position::Last
    } else {
        Position::Middle
    }
}

/// The part of a road that a walk covers, in millionths: all of a road in the middle, what
/// lies beyond the start on the first road, what lies before the end on the last, and what lies
/// between the two where the walk has one road only.
pub open spec fn share(pos: Position, forwards: bool, start: u32, end: u32) -> nat {
    match pos {
        Position::First => if forwards {
            (WHOLE - start) as nat
        } else {
            start as nat
        },
        Position::Last => if forwards {
            end as nat
        } else {
            (WHOLE - end) as nat
        },
        Position::Middle => WHOLE as nat,
        Position::Only => if end >= start {
            (end - start) as nat
        } else {
            (start - end) as nat
        },
    }
}

/// The part of a road that a walk covers, in millionths.
pub fn covered(pos: Position, forwards: bool, start: u32, end: u32) -> (part: u32)
    requires
        start <= WHOLE,
        end <= WHOLE,
    ensures
        part == share(pos, forwards, start, end),
        part <= WHOLE,
{
    match pos {
        Position::First => if forwards {
            WHOLE - start
        } else {
            start
        },
        Position::Last => if forwards {
            end
        } else {
            WHOLE - end
        },
        Position::Middle => WHOLE,
        Position::Only => if end >= start {
            end - start
        } else {
            start - end
        },
    }
}

/// One road of a route, as it is told to the user.
#[derive(Debug)]
pub struct Step {
    /// The name of the road, where it has one.
    pub name: Option<String>,
    pub way: WayID,
    pub kind: RoadKind,
    /// The layer that the road is tagged with; "0" where it has no such tag.
    pub layer: String,
}

/// The answer to a request for a route.
#[derive(Debug)]
pub struct RouteSummary {
    pub start: SnappedPosition,
    pub end: SnappedPosition,
    pub steps: Vec<PathStep>,
    pub directions: Vec<Step>,
    /// The points of the roads of the route, one after another.
    pub linestring: Vec<Pt>,
    /// The distance from the start to the end as the crow flies, in centimetres.
    pub direct_length: u64,
    /// The length of the route, in centimetres.
    pub route_length: u64,
    /// The time spent walking, in milliseconds.
    pub active_duration: u64,
    /// The time spent waiting at crossings, in milliseconds.
    pub waiting_duration: u64,
}

/// The milliseconds of walking that the step at `index` adds to a walk.
pub open spec fn step_active(
    g: Graph,
    settings: Settings,
    steps: Seq<PathStep>,
    start: u32,
    end: u32,
    index: int,
) -> nat {
    let road = g.roads@[steps[index].road.0 as int];
    let whole = clamp_u64(
        active_time(clamp_u64(line_length(road.linestring@)) as nat, settings.base_speed_mph as nat),
    );
    ((whole * share(position_of(index, steps.len() as int), steps[index].forwards, start, end))
        / 1_000_000) as nat
}

/// The milliseconds of walking in the first `n` steps of a walk.
pub open spec fn active_total(
    g: Graph,
    settings: Settings,
    steps: Seq<PathStep>,
    start: u32,
    end: u32,
    n: nat,
) -> nat
    decreases n,
{
    if n == 0 {
        0
    } else {
        active_total(g, settings, steps, start, end, (n - 1) as nat) + step_active(
            g,
            settings,
            steps,
            start,
            end,
            n - 1,
        )
    }
}

/// The milliseconds of waiting in the first `n` steps of a walk.
pub open spec fn waiting_total(g: Graph, settings: Settings, steps: Seq<PathStep>, n: nat) -> nat
    decreases n,
{
    if n == 0 {
        0
    } else {
        waiting_total(g, settings, steps, (n - 1) as nat) + waiting_time(
            g.roads@[steps[n - 1].road.0 as int].kind,
            settings,
        )
    }
}

/// The points of a road in the direction in which a step takes it.
pub open spec fn oriented(line: Seq<Pt>, forwards: bool) -> Seq<Pt> {
    if forwards {
        line
    } else {
        line.reverse()
    }
}

/// The points of the first `n` steps of a walk: those of each road in the direction of the
/// step, the point at which two roads meet taken once.
pub open spec fn walk_line(g: Graph, steps: Seq<PathStep>, n: nat) -> Seq<Pt>
    decreases n,
{
    if n == 0 {
        Seq::empty()
    } else {
        let before = walk_line(g, steps, (n - 1) as nat);
        let line = oriented(g.roads@[steps[n - 1].road.0 as int].linestring@, steps[n - 1].forwards);
        if before.len() == 0 {
            line
        } else {
            before + line.skip(1)
        }
    }
}

/// What the tags tell a user of a road.
pub open spec fn described(road: Road, step: Step) -> bool {
    &&& step.way == road.way
    &&& step.kind == road.kind
    &&& step.name is Some <==> tag_has(road.tags@, "name"@)
    &&& step.name matches Some(name) ==> name@ == road.tags@["name"@]
    &&& step.layer@ == if tag_has(road.tags@, "layer"@) {
        road.tags@["layer"@]
    } else {
        "0"@
    }
}

/// Tells a road to the user.
pub fn describe(road: &Road) -> (step: Step)
    ensures
        described(*road, step),
{
    let name = match road.tags.get("name") {
        Some(n) => Some(n.clone()),
        None => None,
    };
    let layer = match road.tags.get("layer") {
        Some(l) => l.clone(),
        None => "0".to_owned(),
    };
    Step { name, way: road.way, kind: road.kind, layer }
}

/// Copies the points of a road in the direction in which a step takes it, from the point at
/// `skip` on.
fn append_oriented(out: &mut Vec<Pt>, line: &Vec<Pt>, forwards: bool, skip: usize)
    requires
        skip <= line@.len(),
    ensures
        final(out)@ == old(out)@ + oriented(line@, forwards).skip(skip as int),
{
    let n = line.len();
    let mut i: usize = skip;
    let ghost source = oriented(line@, forwards);
    assert(source.skip(skip as int).take(0) =~= Seq::<Pt>::empty());
    while i < n
        invariant
            n == line@.len(),
            source == oriented(line@, forwards),
            source.len() == n,
            skip <= i <= n,
            out@ == old(out)@ + source.skip(skip as int).take(i - skip),
        decreases n - i,
    {
        let p = if forwards {
            line[i]
        } else {
            line[n - 1 - i]
        };
        assert(p == source[i as int]);
        out.push(p);
        assert(source.skip(skip as int).take(i + 1 - skip) =~= source.skip(skip as int).take(
            i - skip,
        ).push(source[i as int]));
        i += 1;
    }
    assert(source.skip(skip as int).take(n - skip) =~= source.skip(skip as int));
}

/// What a walk comes to: its directions, its points, and its times.
pub open spec fn summarized(
    g: Graph,
    settings: Settings,
    steps: Seq<PathStep>,
    start: SnappedPosition,
    end: SnappedPosition,
    summary: RouteSummary,
) -> bool {
    &&& summary.start == start
    &&& summary.end == end
    &&& summary.steps@ == steps
    &&& summary.directions@.len() == steps.len()
    &&& forall|i: int|
        0 <= i < steps.len() ==> described(
            g.roads@[steps[i].road.0 as int],
            #[trigger] summary.directions@[i],
        )
    &&& summary.linestring@ == walk_line(g, steps, steps.len())
    &&& summary.route_length == clamp_u64(line_length(summary.linestring@))
    &&& summary.direct_length == segment_length(
        g.intersections@[start.intersection.0 as int].point,
        g.intersections@[end.intersection.0 as int].point,
    )
    &&& summary.active_duration == clamp_u64(
        active_total(g, settings, steps, start.fraction_along, end.fraction_along, steps.len()),
    )
    &&& summary.waiting_duration == clamp_u64(waiting_total(g, settings, steps, steps.len()))
}

/// Sums up a walk: tells each of its roads, strings their points together, and adds up the
/// time spent walking, counting the part of the first and the last road that the walk covers,
/// and the time spent waiting.
pub fn summarize(
    g: &Graph,
    settings: &Settings,
    steps: Vec<PathStep>,
    start: SnappedPosition,
    end: SnappedPosition,
) -> (summary: RouteSummary)
    requires
        g.wf(),
        settings.base_speed_mph > 0,
        start.fraction_along <= WHOLE,
        end.fraction_along <= WHOLE,
        start.intersection.0 < g.intersections@.len(),
        end.intersection.0 < g.intersections@.len(),
        forall|i: int| 0 <= i < steps@.len() ==> (#[trigger] steps@[i]).road.0 < g.roads@.len(),
    ensures
        summarized(*g, *settings, steps@, start, end, summary),
{
    let n = steps.len();
    let mut directions: Vec<Step> = Vec::new();
    let mut linestring: Vec<Pt> = Vec::new();
    let mut active: u64 = 0;
    let mut waiting: u64 = 0;
    let mut i: usize = 0;
    while i < n
        invariant
            g.wf(),
            n == steps@.len(),
            i <= n,
            settings.base_speed_mph > 0,
            start.fraction_along <= WHOLE,
            end.fraction_along <= WHOLE,
            forall|j: int| 0 <= j < steps@.len() ==> (#[trigger] steps@[j]).road.0 < g.roads@.len(),
            directions@.len() == i,
            forall|j: int|
                0 <= j < i ==> described(
                    g.roads@[steps@[j].road.0 as int],
                    #[trigger] directions@[j],
                ),
            linestring@ == walk_line(*g, steps@, i as nat),
            active == clamp_u64(
                active_total(
                    *g,
                    *settings,
                    steps@,
                    start.fraction_along,
                    end.fraction_along,
                    i as nat,
                ),
            ),
            waiting == clamp_u64(waiting_total(*g, *settings, steps@, i as nat)),
        decreases n - i,
    {
        let step = steps[i];
        let road = &g.roads[step.road.0];
        directions.push(describe(road));
        assert(g.road_wf(step.road.0 as int));
        let skip: usize = if linestring.len() == 0 {
            0
        } else {
            1
        };
        proof {
            let line = oriented(road.linestring@, step.forwards);
            if linestring@.len() == 0 {
                assert(linestring@ + line.skip(0) =~= line);
            }
        }
        append_oriented(&mut linestring, &road.linestring, step.forwards, skip);
        let (walked, waited) = cost(&road.linestring, road.kind, settings);
        let part = covered(position(i, n), step.forwards, start.fraction_along, end.fraction_along);
        assert(walked * part <= 0xffff_ffff_ffff_ffff * 0xffff_ffff) by (nonlinear_arith)
            requires
                walked <= 0xffff_ffff_ffff_ffff,
                part <= 0xffff_ffff,
        ;
        let scaled: u128 = walked as u128 * part as u128 / (WHOLE as u128);
        assert(scaled <= walked) by (nonlinear_arith)
            requires
                scaled == (walked * part) / 1_000_000,
                part <= 1_000_000,
        ;
        active = active.saturating_add(scaled as u64);
        waiting = waiting.saturating_add(waited);
        i += 1;
    }
    let route_length = polyline_length(&linestring);
    let direct_length = segment_len(
        g.intersections[start.intersection.0].point,
        g.intersections[end.intersection.0].point,
    );
    RouteSummary {
        start,
        end,
        steps,
        directions,
        linestring,
        direct_length,
        route_length,
        active_duration: active,
        waiting_duration: waiting,
    }
}

impl RouteSummary {
    /// The whole seconds spent walking.
    pub fn active_duration_s(&self) -> (s: u64)
        ensures
            s == self.active_duration / 1000,
    {
        self.active_duration / 1000
    }

    /// The whole seconds spent waiting.
    pub fn waiting_duration_s(&self) -> (s: u64)
        ensures
            s == self.waiting_duration / 1000,
    {
        self.waiting_duration / 1000
    }
}

/// A walk waits at least as long as any one of its steps does.
pub proof fn lemma_waiting_counts_every_step(
    g: Graph,
    settings: Settings,
    steps: Seq<PathStep>,
    n: nat,
    i: int,
)
    requires
        0 <= i < n,
    ensures
        waiting_total(g, settings, steps, n) >= waiting_time(
            g.roads@[steps[i].road.0 as int].kind,
            settings,
        ),
    decreases n,
{
    if i < n - 1 {
        lemma_waiting_counts_every_step(g, settings, steps, (n - 1) as nat, i);
    }
}

/// What a request for a route comes to: the model prepared for the settings, both points
/// snapped, and the least-cost walk between them summed up, no step of which is a severance
/// where the walker obeys crossings; or the reason why there is none.
pub open spec fn routed(
    after: MapModel,
    start: Pt,
    end: Pt,
    settings: Settings,
    answer: Result<RouteSummary, Error>,
) -> bool {
    let walker = settings.walker_of();
    let g = after.graph;
    match answer {
        Ok(summary) => {
            &&& snaps_to(g, walker, start, summary.start)
            &&& snaps_to(g, walker, end, summary.end)
            &&& summary.start.intersection != summary.end.intersection
            &&& is_path(
                g,
                walker,
                summary.start.intersection.0 as int,
                summary.steps@,
                summary.end.intersection.0 as int,
            )
            &&& forall|steps: Seq<PathStep>| #[trigger]
                is_path(
                    g,
                    walker,
                    summary.start.intersection.0 as int,
                    steps,
                    summary.end.intersection.0 as int,
                ) ==> path_cost(g, walker, summary.steps@) <= path_cost(g, walker, steps)
            &&& summarized(g, settings, summary.steps@, summary.start, summary.end, summary)
            &&& settings.obey_crossings ==> forall|i: int|
                0 <= i < summary.steps@.len() ==> g.kind_of((#[trigger] summary.steps@[i]).road)
                    != RoadKind::Severance
        },
        Err(Error::NotSnappable) => stranded(g, walker),
        Err(Error::DegenerateInput) => exists|a: SnappedPosition, b: SnappedPosition|
            #![trigger snaps_to(g, walker, start, a), snaps_to(g, walker, end, b)]
            snaps_to(g, walker, start, a) && snaps_to(g, walker, end, b) && a.intersection
                == b.intersection,
        Err(Error::NoPath) => exists|a: SnappedPosition, b: SnappedPosition|
            #![trigger snaps_to(g, walker, start, a), snaps_to(g, walker, end, b)]
            {
                &&& snaps_to(g, walker, start, a)
                &&& snaps_to(g, walker, end, b)
                &&& a.intersection != b.intersection
                &&& forall|steps: Seq<PathStep>| #[trigger]
                    is_path(g, walker, a.intersection.0 as int, steps, b.intersection.0 as int)
                        ==> path_cost(g, walker, steps) > u64::MAX
            },
        Err(_) => false,
    }
}

/// Answers a request for a route from `start` to `end`. The costs of the model are first
/// brought up to `settings`; then both points are snapped to the network, and the least-cost
/// walk between the two intersections is summed up.
///
/// Fails with `NotSnappable` where the walker may take no road at all, with `DegenerateInput`
/// where both points snap to one intersection, and with `NoPath` where no walk leads from the
/// one to the other.
pub fn do_route(map: &mut MapModel, start: Pt, end: Pt, settings: Settings) -> (answer: Result<
    RouteSummary,
    Error,
>)
    requires
        old(map).wf(),
        settings.base_speed_mph > 0,
    ensures
        final(map).wf(),
        final(map).prepared(*old(map), settings),
        old(map).settings_of(settings.walker_of()) == settings ==> *final(map) == *old(map),
        routed(*final(map), start, end, settings, answer),
{
    let walker = map.prepare_profile(settings);
    let from = match snap_to_road(&map.graph, walker, start) {
        Some(p) => p,
        None => {
            return Err(Error::NotSnappable);
        },
    };
    let to = match snap_to_road(&map.graph, walker, end) {
        Some(p) => p,
        None => {
            return Err(Error::NotSnappable);
        },
    };
    let found = match route(&map.graph, walker, from.intersection, to.intersection) {
        Ok(found) => found,
        Err(e) => {
            assert(snaps_to(map.graph, walker, start, from) && snaps_to(map.graph, walker, end, to));
            return Err(e);
        },
    };
    proof {
        lemma_steps_name_roads(
            map.graph,
            walker,
            from.intersection.0 as int,
            found.steps@,
            to.intersection.0 as int,
        );
        if settings.obey_crossings {
            lemma_severances_are_not_walked(
                *map,
                from.intersection.0 as int,
                found.steps@,
                to.intersection.0 as int,
            );
        }
    }
    Ok(summarize(&map.graph, &settings, found.steps, from, to))
}

/// The length of a walk in centimetres: the lengths of the roads of its steps, added up.
pub open spec fn walk_length(g: Graph, steps: Seq<PathStep>) -> nat
    decreases steps.len(),
{
    if steps.len() == 0 {
        0
    } else {
        walk_length(g, steps.drop_last()) + clamp_u64(
            line_length(g.roads@[steps.last().road.0 as int].linestring@),
        ) as nat
    }
}

/// In a consistent model a walk is no longer than the walker gets, at the speed of their
/// settings, in the time that the walk costs them and a millisecond more for each step. So
/// what is reached within a time lies within the way that the walker makes in that time.
pub proof fn lemma_walk_within_cost(map: MapModel, walker: Walker, from: int, steps: Seq<PathStep>, to: int)
    requires
        map.wf(),
        is_path(map.graph, walker, from, steps, to),
        path_cost(map.graph, walker, steps) < u64::MAX,
    ensures
        walk_length(map.graph, steps) * 1_000_000_000 <= (path_cost(map.graph, walker, steps)
            + steps.len()) * speed(map.settings_of(walker).base_speed_mph as nat),
    decreases steps.len(),
{
    let g = map.graph;
    let settings = map.settings_of(walker);
    let v = speed(settings.base_speed_mph as nat);
    if steps.len() > 0 {
        let rest = steps.drop_last();
        let road = g.roads@[steps.last().road.0 as int];
        lemma_walk_within_cost(map, walker, from, rest, step_from(g, steps.last()));
        assert(step_ok(g, walker, steps.last()));
        assert(crate::model::two_way(road));
        assert(crate::model::cost_current(road, walker, settings));
        let c = step_cost(g, walker, steps.last());
        let l = clamp_u64(line_length(road.linestring@)) as nat;
        assert(c == crate::settings::total_cost(road.linestring@, road.kind, settings));
        crate::settings::lemma_length_within_cost(road.linestring@, road.kind, settings);
        let before_l = walk_length(g, rest);
        let before_c = path_cost(g, walker, rest);
        let n = rest.len();
        assert((before_l + l) * 1_000_000_000 <= (before_c + c + (n + 1)) * v) by (nonlinear_arith)
            requires
                before_l * 1_000_000_000 <= (before_c + n) * v,
                l * 1_000_000_000 < (c + 1) * v,
        ;
    } else {
        assert(walk_length(g, steps) == 0);
        assert(0 <= (path_cost(g, walker, steps) + steps.len()) * v) by (nonlinear_arith)
            requires
                v >= 0,
                path_cost(g, walker, steps) + steps.len() >= 0,
        ;
    }
}

/// In a consistent model the walker who obeys crossings walks along no severance.
pub proof fn lemma_severances_are_not_walked(map: MapModel, from: int, steps: Seq<PathStep>, to: int)
    requires
        map.wf(),
        is_path(map.graph, Walker::Walking, from, steps, to),
    ensures
        forall|i: int|
            0 <= i < steps.len() ==> map.graph.kind_of((#[trigger] steps[i]).road) != RoadKind::Severance,
{
    lemma_steps_name_roads(map.graph, Walker::Walking, from, steps, to);
    assert forall|i: int| 0 <= i < steps.len() implies map.graph.kind_of((#[trigger] steps[i]).road)
        != RoadKind::Severance by {
        assert(step_ok(map.graph, Walker::Walking, steps[i]));
        assert(crate::model::severance_closed(map.graph.roads@[steps[i].road.0 as int]));
    }
}

/// Every step of a walk names a road of the graph.
pub proof fn lemma_steps_name_roads(
    g: Graph,
    walker: Walker,
    from: int,
    steps: Seq<PathStep>,
    to: int,
)
    requires
        is_path(g, walker, from, steps, to),
    ensures
        forall|i: int| 0 <= i < steps.len() ==> step_ok(g, walker, #[trigger] steps[i]),
    decreases steps.len(),
{
    if steps.len() > 0 {
        lemma_steps_name_roads(g, walker, from, steps.drop_last(), step_from(g, steps.last()));
        assert forall|i: int| 0 <= i < steps.len() implies step_ok(g, walker, #[trigger] steps[i]) by {
            if i < steps.len() - 1 {
                assert(steps.drop_last()[i] == steps[i]);
            }
        }
    }
}

/// A request for a route between two places in geographic coordinates, in ten-millionths of a
/// degree.
#[derive(Clone, Copy, Debug, PartialEq, Eq, Structural)]
pub struct CompareRouteRequest {
    pub x1: i32,
    pub y1: i32,
    pub x2: i32,
    pub y2: i32,
    pub settings: Settings,
}

impl MapModel {
    /// Answers a request for a route: carries both places into the planar frame of the model
    /// and looks for a route between them.
    pub fn compare_route(&mut self, input: CompareRouteRequest) -> (answer: Result<RouteSummary, Error>)
        requires
            old(self).wf(),
            input.settings.base_speed_mph > 0,
        ensures
            final(self).wf(),
            final(self).prepared(*old(self), input.settings),
            routed(
                *final(self),
                old(self).mercator.to_mercator(Pt { x: input.x1, y: input.y1 }),
                old(self).mercator.to_mercator(Pt { x: input.x2, y: input.y2 }),
                input.settings,
                answer,
            ),
    {
        let start = self.mercator.pt_to_mercator(Pt { x: input.x1, y: input.y1 });
        let end = self.mercator.pt_to_mercator(Pt { x: input.x2, y: input.y2 });
        do_route(self, start, end, input.settings)
    }
}

} // verus!
