//! The map model: the graph with what was scraped beside it, and the settings that its costs
//! were last computed for.

use crate::geometry::Pt;
use crate::graph::{all_distinct, Direction, Graph, Road, RoadID, Travel, Walker};
use crate::mercator::Mercator;
use crate::osm::NodeID;
use crate::profiles::{CrossingKind, RoadKind};
use crate::settings::{road_cost, total_cost, Settings};
use crate::tags::Tags;
use vstd::prelude::*;

verus! {

/// A place at which pedestrians are let across a severance.
#[derive(Debug)]
pub struct Crossing {
    pub osm_id: NodeID,
    pub point: Pt,
    /// The severances that the crossing lies on, each once.
    pub roads: Vec<RoadID>,
    pub tags: Tags,
    pub kind: CrossingKind,
}

/// Everything that is known of an area.
#[derive(Debug)]
pub struct MapModel {
    pub graph: Graph,
    /// The planar frame in which the points of the graph are held.
    pub mercator: Mercator,
    /// The slope of each road in hundredths of a percent, by the road's index.
    pub gradients: Vec<i32>,
    pub crossings: Vec<Crossing>,
    /// The outlines of the buildings that stand nearest to each road, by the road's index.
    pub buildings_per_road: Vec<Vec<Vec<Pt>>>,
    /// The settings that the walking costs were last computed for.
    pub walking_settings: Settings,
    /// The settings that the costs of crossing anywhere were last computed for.
    pub cross_anywhere_settings: Settings,
}

/// The crossing lies on one severance of the graph at least, and on nothing else.
pub open spec fn crossing_wf(g: Graph, c: Crossing) -> bool {
    &&& c.roads@.len() > 0
    &&& c.roads@.no_duplicates()
    &&& forall|k: int|
        0 <= k < c.roads@.len() ==> (#[trigger] c.roads@[k]).0 < g.roads@.len() && g.kind_of(
            c.roads@[k],
        ) == RoadKind::Severance
}

/// A severance is closed to the walker who obeys crossings.
pub open spec fn severance_closed(road: Road) -> bool {
    road.kind == RoadKind::Severance ==> road.walking.access == Direction::Neither
}

/// Each walker takes the road both ways or not at all.
pub open spec fn two_way(road: Road) -> bool {
    &&& road.walking.access == Direction::Both || road.walking.access == Direction::Neither
    &&& road.cross_anywhere.access == Direction::Both || road.cross_anywhere.access
        == Direction::Neither
}

/// What the road costs `walker` is what `settings` make it cost, where the walker may take the
/// road both ways.
pub open spec fn cost_current(road: Road, walker: Walker, settings: Settings) -> bool {
    road.travel_of(walker).access == Direction::Both ==> road.travel_of(walker).cost == total_cost(
        road.linestring@,
        road.kind,
        settings,
    )
}

/// The road `b` is the road `a` with its cost for `walker` brought up to `settings`.
pub open spec fn road_refreshed(a: Road, b: Road, walker: Walker, settings: Settings) -> bool {
    let cost = if a.travel_of(walker).access == Direction::Both {
        total_cost(a.linestring@, a.kind, settings)
    } else {
        a.travel_of(walker).cost
    };
    let travel = Travel { access: a.travel_of(walker).access, cost };
    b == match walker {
        Walker::Walking => Road { walking: travel, ..a },
        Walker::CrossAnywhere => Road { cross_anywhere: travel, ..a },
    }
}

impl MapModel {
    /// The settings that the costs of `walker` were last computed for.
    pub open spec fn settings_of(self, walker: Walker) -> Settings {
        match walker {
            Walker::Walking => self.walking_settings,
            Walker::CrossAnywhere => self.cross_anywhere_settings,
        }
    }

    /// The model is consistent: so is its graph; every road has a slope and a list of
    /// buildings; every crossing lies on severances; a walker takes a road both ways or not at
    /// all; every severance is closed to the walker who obeys crossings; and every cost is
    /// that of the settings that are held for its walker.
    pub open spec fn wf(self) -> bool {
        &&& self.graph.wf()
        &&& forall|r: int| 0 <= r < self.graph.roads@.len() ==> two_way(#[trigger] self.graph.roads@[r])
        &&& forall|r: int|
            0 <= r < self.graph.roads@.len() ==> severance_closed(#[trigger] self.graph.roads@[r])
        &&& self.mercator.wf()
        &&& self.gradients@.len() == self.graph.roads@.len()
        &&& self.buildings_per_road@.len() == self.graph.roads@.len()
        &&& forall|c: int|
            0 <= c < self.crossings@.len() ==> crossing_wf(self.graph, #[trigger] self.crossings@[c])
        &&& self.walking_settings.obey_crossings
        &&& !self.cross_anywhere_settings.obey_crossings
        &&& self.walking_settings.base_speed_mph > 0
        &&& self.cross_anywhere_settings.base_speed_mph > 0
        &&& forall|r: int|
            0 <= r < self.graph.roads@.len() ==> cost_current(
                #[trigger] self.graph.roads@[r],
                Walker::Walking,
                self.walking_settings,
            )
        &&& forall|r: int|
            0 <= r < self.graph.roads@.len() ==> cost_current(
                #[trigger] self.graph.roads@[r],
                Walker::CrossAnywhere,
                self.cross_anywhere_settings,
            )
    }

    /// `self` is `before` once the costs of the walker that `settings` describe are brought up
    /// to `settings`: nothing else differs.
    pub open spec fn prepared(self, before: MapModel, settings: Settings) -> bool {
        let walker = settings.walker_of();
        &&& self.mercator == before.mercator
        &&& self.gradients == before.gradients
        &&& self.crossings == before.crossings
        &&& self.buildings_per_road == before.buildings_per_road
        &&& self.graph.intersections == before.graph.intersections
        &&& self.settings_of(walker) == settings
        &&& match walker {
            Walker::Walking => self.cross_anywhere_settings == before.cross_anywhere_settings,
            Walker::CrossAnywhere => self.walking_settings == before.walking_settings,
        }
        &&& self.graph.roads@.len() == before.graph.roads@.len()
        &&& forall|r: int|
            0 <= r < before.graph.roads@.len() ==> road_refreshed(
                before.graph.roads@[r],
                #[trigger] self.graph.roads@[r],
                walker,
                settings,
            )
    }

    fn crossing_is_wf(&self, c: usize) -> (ok: bool)
        requires
            c < self.crossings@.len(),
        ensures
            ok == crossing_wf(self.graph, self.crossings@[c as int]),
    {
        let crossing = &self.crossings[c];
        if crossing.roads.len() == 0 || !all_distinct(&crossing.roads) {
            return false;
        }
        let mut k: usize = 0;
        while k < crossing.roads.len()
            invariant
                c < self.crossings@.len(),
                *crossing == self.crossings@[c as int],
                k <= crossing.roads@.len(),
                forall|j: int|
                    0 <= j < k ==> (#[trigger] crossing.roads@[j]).0 < self.graph.roads@.len()
                        && self.graph.kind_of(crossing.roads@[j]) == RoadKind::Severance,
            decreases crossing.roads@.len() - k,
        {
            let id = crossing.roads[k];
            if id.0 >= self.graph.roads.len() {
                return false;
            }
            match self.graph.roads[id.0].kind {
                RoadKind::Severance => {},
                _ => {
                    return false;
                },
            }
            k += 1;
        }
        true
    }

    fn cost_is_current(&self, r: usize, walker: Walker) -> (ok: bool)
        requires
            r < self.graph.roads@.len(),
            self.settings_of(walker).base_speed_mph > 0,
        ensures
            ok == cost_current(self.graph.roads@[r as int], walker, self.settings_of(walker)),
    {
        let road = &self.graph.roads[r];
        let travel = road.travel(walker);
        match travel.access {
            Direction::Both => {
                let settings = match walker {
                    Walker::Walking => self.walking_settings,
                    Walker::CrossAnywhere => self.cross_anywhere_settings,
                };
                travel.cost == road_cost(&road.linestring, road.kind, &settings)
            },
            _ => true,
        }
    }

    /// Whether the model is consistent.
    pub fn is_consistent(&self) -> (ok: bool)
        ensures
            ok == self.wf(),
    {
        if !self.graph.is_consistent() || !(self.mercator.min_lon <= self.mercator.max_lon
            && self.mercator.min_lat <= self.mercator.max_lat) || self.gradients.len()
            != self.graph.roads.len() || self.buildings_per_road.len() != self.graph.roads.len()
            || !self.walking_settings.obey_crossings || self.cross_anywhere_settings.obey_crossings
            || self.walking_settings.base_speed_mph == 0 || self.cross_anywhere_settings.base_speed_mph
            == 0 {
            return false;
        }
        let mut c: usize = 0;
        while c < self.crossings.len()
            invariant
                c <= self.crossings@.len(),
                forall|j: int|
                    0 <= j < c ==> crossing_wf(self.graph, #[trigger] self.crossings@[j]),
            decreases self.crossings@.len() - c,
        {
            if !self.crossing_is_wf(c) {
                return false;
            }
            c += 1;
        }
        let mut r: usize = 0;
        while r < self.graph.roads.len()
            invariant
                r <= self.graph.roads@.len(),
                self.walking_settings.base_speed_mph > 0,
                self.cross_anywhere_settings.base_speed_mph > 0,
                forall|j: int| 0 <= j < r ==> severance_closed(#[trigger] self.graph.roads@[j]),
                forall|j: int| 0 <= j < r ==> two_way(#[trigger] self.graph.roads@[j]),
                forall|j: int|
                    0 <= j < r ==> cost_current(
                        #[trigger] self.graph.roads@[j],
                        Walker::Walking,
                        self.walking_settings,
                    ),
                forall|j: int|
                    0 <= j < r ==> cost_current(
                        #[trigger] self.graph.roads@[j],
                        Walker::CrossAnywhere,
                        self.cross_anywhere_settings,
                    ),
            decreases self.graph.roads@.len() - r,
        {
            if !self.cost_is_current(r, Walker::Walking) || !self.cost_is_current(
                r,
                Walker::CrossAnywhere,
            ) {
                return false;
            }
            let closed = match self.graph.roads[r].kind {
                RoadKind::Severance => match self.graph.roads[r].walking.access {
                    Direction::Neither => true,
                    _ => false,
                },
                _ => true,
            };
            if !closed {
                return false;
            }
            let both = match self.graph.roads[r].walking.access {
                Direction::Both | Direction::Neither => true,
                _ => false,
            } && match self.graph.roads[r].cross_anywhere.access {
                Direction::Both | Direction::Neither => true,
                _ => false,
            };
            if !both {
                return false;
            }
            r += 1;
        }
        true
    }

    /// The graph of the model.
    pub fn get_graph(&self) -> (g: &Graph)
        ensures
            *g == self.graph,
    {
        &self.graph
    }

    /// Puts `gradients` in place of the slopes that the model holds.
    pub fn set_gradients(&mut self, gradients: Vec<i32>)
        requires
            old(self).wf(),
            gradients@.len() == old(self).graph.roads@.len(),
        ensures
            final(self).wf(),
            final(self).gradients == gradients,
            final(self).graph == old(self).graph,
            final(self).mercator == old(self).mercator,
            final(self).crossings == old(self).crossings,
            final(self).buildings_per_road == old(self).buildings_per_road,
            final(self).walking_settings == old(self).walking_settings,
            final(self).cross_anywhere_settings == old(self).cross_anywhere_settings,
    {
        self.gradients = gradients;
    }

    /// Works out anew what each road costs the walker that `settings` describe, and holds
    /// `settings` as the settings that the walker's costs are computed for. A road that the
    /// walker may not take both ways keeps its cost.
    pub fn update_costs(&mut self, settings: Settings)
        requires
            old(self).wf(),
            settings.base_speed_mph > 0,
        ensures
            final(self).wf(),
            final(self).prepared(*old(self), settings),
    {
        let walker = settings.walker();
        let ghost before = *self;
        let mut r: usize = 0;
        while r < self.graph.roads.len()
            invariant
                before.wf(),
                walker == settings.walker_of(),
                settings.base_speed_mph > 0,
                r <= self.graph.roads@.len(),
                self.graph.roads@.len() == before.graph.roads@.len(),
                self.graph.intersections == before.graph.intersections,
                self.mercator == before.mercator,
                self.gradients == before.gradients,
                self.crossings == before.crossings,
                self.buildings_per_road == before.buildings_per_road,
                self.walking_settings == before.walking_settings,
                self.cross_anywhere_settings == before.cross_anywhere_settings,
                forall|j: int|
                    0 <= j < r ==> road_refreshed(
                        before.graph.roads@[j],
                        #[trigger] self.graph.roads@[j],
                        walker,
                        settings,
                    ),
                forall|j: int|
                    r <= j < self.graph.roads@.len() ==> self.graph.roads@[j]
                        == before.graph.roads@[j],
            decreases self.graph.roads@.len() - r,
        {
            let both = match self.graph.roads[r].travel(walker).access {
                Direction::Both => true,
                _ => false,
            };
            if both {
                let c = road_cost(&self.graph.roads[r].linestring, self.graph.roads[r].kind, &settings);
                match walker {
                    Walker::Walking => {
                        self.graph.roads[r].walking.cost = c;
                    },
                    Walker::CrossAnywhere => {
                        self.graph.roads[r].cross_anywhere.cost = c;
                    },
                }
            }
            r += 1;
        }
        match walker {
            Walker::Walking => {
                self.walking_settings = settings;
            },
            Walker::CrossAnywhere => {
                self.cross_anywhere_settings = settings;
            },
        }
        proof {
            lemma_prepared_wf(before, *self, settings);
        }
    }

    /// Brings the costs of the walker that `settings` describe up to `settings`, unless they
    /// were last computed for these very settings, and returns the walker.
    pub fn prepare_profile(&mut self, settings: Settings) -> (walker: Walker)
        requires
            old(self).wf(),
            settings.base_speed_mph > 0,
        ensures
            walker == settings.walker_of(),
            final(self).wf(),
            final(self).prepared(*old(self), settings),
            old(self).settings_of(walker) == settings ==> *final(self) == *old(self),
    {
        let walker = settings.walker();
        let current = match walker {
            Walker::Walking => self.walking_settings,
            Walker::CrossAnywhere => self.cross_anywhere_settings,
        };
        if current == settings {
            proof {
                assert forall|r: int| 0 <= r < self.graph.roads@.len() implies road_refreshed(
                    self.graph.roads@[r],
                    #[trigger] self.graph.roads@[r],
                    walker,
                    settings,
                ) by {
                    assert(cost_current(self.graph.roads@[r], walker, settings));
                }
            }
        } else {
            self.update_costs(settings);
        }
        walker
    }
}

/// Bringing costs up to new settings leaves a consistent model consistent.
pub proof fn lemma_prepared_wf(before: MapModel, after: MapModel, settings: Settings)
    requires
        before.wf(),
        settings.base_speed_mph > 0,
        after.prepared(before, settings),
    ensures
        after.wf(),
{
    let walker = settings.walker_of();
    assert forall|r: int| 0 <= r < after.graph.roads@.len() implies #[trigger] after.graph.road_wf(
        r,
    ) by {
        assert(before.graph.road_wf(r));
        assert(road_refreshed(before.graph.roads@[r], after.graph.roads@[r], walker, settings));
    }
    assert forall|i: int| 0 <= i < after.graph.intersections@.len() implies #[trigger] after.graph.intersection_wf(
        i,
    ) by {
        assert(before.graph.intersection_wf(i));
        let roads = after.graph.intersections@[i].roads@;
        assert forall|k: int| 0 <= k < roads.len() implies {
            &&& (#[trigger] roads[k]).0 < after.graph.roads@.len()
            &&& after.graph.roads@[roads[k].0 as int].touches(i)
        } by {
            let q = roads[k].0 as int;
            assert(road_refreshed(before.graph.roads@[q], after.graph.roads@[q], walker, settings));
        }
    }
    assert forall|c: int| 0 <= c < after.crossings@.len() implies crossing_wf(
        after.graph,
        #[trigger] after.crossings@[c],
    ) by {
        let crossing = after.crossings@[c];
        assert(crossing_wf(before.graph, before.crossings@[c]));
        assert forall|k: int| 0 <= k < crossing.roads@.len() implies (#[trigger] crossing.roads@[k]).0
            < after.graph.roads@.len() && after.graph.kind_of(crossing.roads@[k])
            == RoadKind::Severance by {
            let q = crossing.roads@[k].0 as int;
            assert(road_refreshed(before.graph.roads@[q], after.graph.roads@[q], walker, settings));
        }
    }
    assert forall|r: int| 0 <= r < after.graph.roads@.len() implies severance_closed(
        #[trigger] after.graph.roads@[r],
    ) && two_way(after.graph.roads@[r]) by {
        assert(severance_closed(before.graph.roads@[r]));
        assert(two_way(before.graph.roads@[r]));
        assert(road_refreshed(before.graph.roads@[r], after.graph.roads@[r], walker, settings));
    }
    assert forall|r: int| 0 <= r < after.graph.roads@.len() implies cost_current(
        #[trigger] after.graph.roads@[r],
        Walker::Walking,
        after.walking_settings,
    ) by {
        assert(road_refreshed(before.graph.roads@[r], after.graph.roads@[r], walker, settings));
        assert(cost_current(before.graph.roads@[r], Walker::Walking, before.walking_settings));
    }
    assert forall|r: int| 0 <= r < after.graph.roads@.len() implies cost_current(
        #[trigger] after.graph.roads@[r],
        Walker::CrossAnywhere,
        after.cross_anywhere_settings,
    ) by {
        assert(road_refreshed(before.graph.roads@[r], after.graph.roads@[r], walker, settings));
        assert(cost_current(
            before.graph.roads@[r],
            Walker::CrossAnywhere,
            before.cross_anywhere_settings,
        ));
    }
}

/// Preparing a model twice for the same settings changes nothing the second time.
pub proof fn lemma_prepare_twice(first: MapModel, second: MapModel, third: MapModel, settings: Settings)
    requires
        first.wf(),
        settings.base_speed_mph > 0,
        second.prepared(first, settings),
        third.prepared(second, settings),
    ensures
        third.graph.roads@ =~= second.graph.roads@,
        third.walking_settings == second.walking_settings,
        third.cross_anywhere_settings == second.cross_anywhere_settings,
{
    let walker = settings.walker_of();
    assert forall|r: int| 0 <= r < second.graph.roads@.len() implies third.graph.roads@[r]
        == second.graph.roads@[r] by {
        assert(road_refreshed(first.graph.roads@[r], second.graph.roads@[r], walker, settings));
        assert(road_refreshed(second.graph.roads@[r], third.graph.roads@[r], walker, settings));
    }
}

/// A road as it is shown: its points in geographic coordinates, its kind, its way and its
/// slope.
#[derive(Debug)]
pub struct RoadFeature {
    pub linestring: Vec<Pt>,
    pub kind: RoadKind,
    pub way: crate::osm::WayID,
    /// The slope in hundredths of a percent.
    pub gradient: i32,
}

/// A crossing as it is shown: its place in geographic coordinates, its node, its kind and its
/// tags.
#[derive(Debug)]
pub struct CrossingFeature {
    pub point: Pt,
    pub osm_id: NodeID,
    pub kind: CrossingKind,
    pub tags: Tags,
}

/// The points carried back to geographic coordinates.
pub open spec fn to_wgs84_line(frame: Mercator, line: Seq<Pt>) -> Seq<Pt> {
    Seq::new(line.len(), |i: int| frame.to_wgs84(line[i]))
}

fn wgs84_line(frame: &Mercator, line: &Vec<Pt>) -> (out: Vec<Pt>)
    requires
        frame.wf(),
    ensures
        out@ == to_wgs84_line(*frame, line@),
{
    let mut out: Vec<Pt> = Vec::new();
    let mut i: usize = 0;
    while i < line.len()
        invariant
            frame.wf(),
            i <= line@.len(),
            out@.len() == i,
            forall|j: int| 0 <= j < i ==> #[trigger] out@[j] == frame.to_wgs84(line@[j]),
        decreases line@.len() - i,
    {
        out.push(frame.pt_to_wgs84(line[i]));
        i += 1;
    }
    assert(out@ =~= to_wgs84_line(*frame, line@));
    out
}

impl MapModel {
    /// The whole network as it is shown: every road, in the order of the roads.
    pub fn render(&self) -> (features: Vec<RoadFeature>)
        requires
            self.wf(),
        ensures
            features@.len() == self.graph.roads@.len(),
            forall|r: int|
                0 <= r < self.graph.roads@.len() ==> {
                    &&& (#[trigger] features@[r]).linestring@ == to_wgs84_line(
                        self.mercator,
                        self.graph.roads@[r].linestring@,
                    )
                    &&& features@[r].kind == self.graph.roads@[r].kind
                    &&& features@[r].way == self.graph.roads@[r].way
                    &&& features@[r].gradient == self.gradients@[r]
                },
    {
        let mut features: Vec<RoadFeature> = Vec::new();
        let mut r: usize = 0;
        while r < self.graph.roads.len()
            invariant
                self.wf(),
                r <= self.graph.roads@.len(),
                features@.len() == r,
                forall|q: int|
                    0 <= q < r ==> {
                        &&& (#[trigger] features@[q]).linestring@ == to_wgs84_line(
                            self.mercator,
                            self.graph.roads@[q].linestring@,
                        )
                        &&& features@[q].kind == self.graph.roads@[q].kind
                        &&& features@[q].way == self.graph.roads@[q].way
                        &&& features@[q].gradient == self.gradients@[q]
                    },
            decreases self.graph.roads@.len() - r,
        {
            let road = &self.graph.roads[r];
            features.push(
                RoadFeature {
                    linestring: wgs84_line(&self.mercator, &road.linestring),
                    kind: road.kind,
                    way: road.way,
                    gradient: self.gradients[r],
                },
            );
            r += 1;
        }
        features
    }

    /// The crossings as they are shown, in their order.
    pub fn get_crossings(&self) -> (features: Vec<CrossingFeature>)
        requires
            self.wf(),
        ensures
            features@.len() == self.crossings@.len(),
            forall|c: int|
                0 <= c < self.crossings@.len() ==> {
                    &&& (#[trigger] features@[c]).point == self.mercator.to_wgs84(
                        self.crossings@[c].point,
                    )
                    &&& features@[c].osm_id == self.crossings@[c].osm_id
                    &&& features@[c].kind == self.crossings@[c].kind
                    &&& features@[c].tags@ == self.crossings@[c].tags@
                },
    {
        let mut features: Vec<CrossingFeature> = Vec::new();
        let mut c: usize = 0;
        while c < self.crossings.len()
            invariant
                self.wf(),
                c <= self.crossings@.len(),
                features@.len() == c,
                forall|q: int|
                    0 <= q < c ==> {
                        &&& (#[trigger] features@[q]).point == self.mercator.to_wgs84(
                            self.crossings@[q].point,
                        )
                        &&& features@[q].osm_id == self.crossings@[q].osm_id
                        &&& features@[q].kind == self.crossings@[q].kind
                        &&& features@[q].tags@ == self.crossings@[q].tags@
                    },
            decreases self.crossings@.len() - c,
        {
            let crossing = &self.crossings[c];
            features.push(
                CrossingFeature {
                    point: self.mercator.pt_to_wgs84(crossing.point),
                    osm_id: crossing.osm_id,
                    kind: crossing.kind,
                    tags: crossing.tags.copy(),
                },
            );
            c += 1;
        }
        features
    }

    /// The bounds of the area: the least longitude, the least latitude, the greatest longitude
    /// and the greatest latitude, in ten-millionths of a degree.
    pub fn get_bounds(&self) -> (bounds: Vec<i32>)
        ensures
            bounds@ == seq![
                self.mercator.min_lon,
                self.mercator.min_lat,
                self.mercator.max_lon,
                self.mercator.max_lat,
            ],
    {
        let mut bounds: Vec<i32> = Vec::new();
        bounds.push(self.mercator.min_lon);
        bounds.push(self.mercator.min_lat);
        bounds.push(self.mercator.max_lon);
        bounds.push(self.mercator.max_lat);
        assert(bounds@ =~= seq![
            self.mercator.min_lon,
            self.mercator.min_lat,
            self.mercator.max_lon,
            self.mercator.max_lat,
        ]);
        bounds
    }
}

} // verus!
