//! What can be reached on foot within a time, drawn as roads, as buildings or as a grid.

use crate::error::Error;
use crate::geometry::{segment_len, segment_length, Pt};
use crate::graph::{Direction, Graph, IntersectionID, RoadID, Walker};
use crate::model::MapModel;
use crate::router::{allowed, passable, search, snap_to_road, snaps_to, stranded, Reach};
use crate::mercator::lemma_scale_in_range;
use crate::settings::Settings;
use vstd::prelude::*;

verus! {

/// How an isochrone is drawn.
#[derive(Clone, Copy, Debug, PartialEq, Eq, Structural)]
pub enum Style {
    /// Every road that is reached.
    Roads,
    /// A grid of squares, each with the cost of a road that runs through it.
    Grid,
    /// Bands of equal cost. Not drawn yet: nothing comes out.
    Contours,
    /// Every building that stands at a road that is reached.
    Dasymetric,
}

/// The side of a square of the grid, in centimetres.
pub const RESOLUTION: u32 = 10_000;

/// The seconds that one band of cost spans.
pub const BAND: u64 = 180;

/// The cost at which the walker enters the road `r`: the lesser of the costs of the ends from
/// which they may take it, if one of them is reached.
pub open spec fn entry_cost(g: Graph, walker: Walker, costs: Seq<Option<u64>>, r: int) -> Option<u64> {
    let road = g.roads@[r];
    let access = road.travel_of(walker).access;
    let a = if allowed(access, true) {
        costs[road.src_i.0 as int]
    } else {
        None
    };
    let b = if allowed(access, false) {
        costs[road.dst_i.0 as int]
    } else {
        None
    };
    match (a, b) {
        (Some(x), Some(y)) => Some(if x <= y {
            x
        } else {
            y
        }),
        (Some(x), None) => Some(x),
        (None, b) => b,
    }
}

/// What a search makes of the roads: the search itself, and the cost of every road.
#[derive(Debug)]
pub struct RoadCosts {
    pub reach: Reach,
    /// The cost at which each road is entered, in milliseconds, by the road's index.
    pub roads: Vec<Option<u64>>,
}

impl RoadCosts {
    /// The costs are those at which a walker who starts at one of `roots` enters each road
    /// within `limit`.
    pub open spec fn answers(
        self,
        g: Graph,
        walker: Walker,
        roots: Seq<IntersectionID>,
        limit: u64,
    ) -> bool {
        &&& self.reach.answers(g, walker, roots, limit)
        &&& self.roads@.len() == g.roads@.len()
        &&& forall|r: int|
            0 <= r < g.roads@.len() ==> #[trigger] self.roads@[r] == entry_cost(
                g,
                walker,
                self.reach.cost@,
                r,
            )
    }
}

/// Finds the cost at which a walker who starts at one of `roots` enters each road, for all
/// roads that are entered within `limit` milliseconds.
pub fn get_costs(g: &Graph, walker: Walker, roots: &Vec<IntersectionID>, limit: u64) -> (costs: RoadCosts)
    requires
        g.wf(),
    ensures
        costs.answers(*g, walker, roots@, limit),
{
    let reach = search(g, walker, roots, limit);
    let mut roads: Vec<Option<u64>> = Vec::new();
    let mut r: usize = 0;
    while r < g.roads.len()
        invariant
            g.wf(),
            reach.cost@.len() == g.intersections@.len(),
            r <= g.roads@.len(),
            roads@.len() == r,
            forall|j: int|
                0 <= j < r ==> #[trigger] roads@[j] == entry_cost(*g, walker, reach.cost@, j),
        decreases g.roads@.len() - r,
    {
        assert(g.road_wf(r as int));
        let road = &g.roads[r];
        let access = road.travel(walker).access;
        let a = match access {
            Direction::Both => reach.cost[road.src_i.0],
            Direction::Forward => reach.cost[road.src_i.0],
            _ => None,
        };
        let b = match access {
            Direction::Both => reach.cost[road.dst_i.0],
            Direction::Backward => reach.cost[road.dst_i.0],
            _ => None,
        };
        let c = match (a, b) {
            (Some(x), Some(y)) => Some(if x <= y {
                x
            } else {
                y
            }),
            (Some(x), None) => Some(x),
            (None, b) => b,
        };
        roads.push(c);
        r += 1;
    }
    RoadCosts { reach, roads }
}

/// What a feature of an isochrone shows.
#[derive(Clone, Copy, Debug, PartialEq, Eq, Structural)]
pub enum Shape {
    /// A road.
    Road(RoadID),
    /// A building at a road: the road, and the place of the building in the road's list.
    Building(RoadID, usize),
    /// A square of the grid: its column and its row.
    Cell(usize, usize),
}

/// One feature of an isochrone.
#[derive(Clone, Copy, Debug, PartialEq, Eq, Structural)]
pub struct Feature {
    pub shape: Shape,
    /// The cost in whole seconds under the first settings; for a square of the grid, the lower
    /// end of the band of cost that the square falls into.
    pub cost1: u64,
    /// The cost in whole seconds under the second settings, where there are second settings
    /// and the road is reached under them.
    pub cost2: Option<u64>,
}

/// The whole seconds in a number of milliseconds.
pub open spec fn seconds(ms: u64) -> u64 {
    ms / 1000
}

/// The cost of the road `r` under the second settings, in seconds.
pub open spec fn second_cost(second: Option<Seq<Option<u64>>>, r: int) -> Option<u64> {
    match second {
        Some(costs) => match costs[r] {
            Some(c) => Some(seconds(c)),
            None => None,
        },
        None => None,
    }
}

/// The features of the first `n` roads: one for each road that is reached.
pub open spec fn road_features(
    first: Seq<Option<u64>>,
    second: Option<Seq<Option<u64>>>,
    n: nat,
) -> Seq<Feature>
    decreases n,
{
    if n == 0 {
        Seq::empty()
    } else {
        let r = (n - 1) as int;
        let before = road_features(first, second, (n - 1) as nat);
        match first[r] {
            Some(c) => before.push(
                Feature {
                    shape: Shape::Road(RoadID(r as usize)),
                    cost1: seconds(c),
                    cost2: second_cost(second, r),
                },
            ),
            None => before,
        }
    }
}

/// The features of the first `k` buildings at the road `r`.
pub open spec fn buildings_at(r: int, cost1: u64, cost2: Option<u64>, k: nat) -> Seq<Feature> {
    Seq::new(
        k,
        |i: int| Feature { shape: Shape::Building(RoadID(r as usize), i as usize), cost1, cost2 },
    )
}

/// The features of the buildings at the first `n` roads: one for each building at a road that
/// is reached.
pub open spec fn building_features(
    buildings: Seq<Vec<Vec<Pt>>>,
    first: Seq<Option<u64>>,
    second: Option<Seq<Option<u64>>>,
    n: nat,
) -> Seq<Feature>
    decreases n,
{
    if n == 0 {
        Seq::empty()
    } else {
        let r = (n - 1) as int;
        let before = building_features(buildings, first, second, (n - 1) as nat);
        match first[r] {
            Some(c) => before + buildings_at(
                r,
                seconds(c),
                second_cost(second, r),
                buildings[r]@.len(),
            ),
            None => before,
        }
    }
}

/// A grid of squares over the planar frame, each of which may hold a cost in milliseconds.
#[derive(Debug)]
pub struct Grid {
    pub width: usize,
    pub height: usize,
    /// The squares row by row.
    pub data: Vec<Option<u64>>,
}

/// Where the square in column `x` and row `y` stands among the squares of a grid.
pub open spec fn cell_index(width: int, x: int, y: int) -> int {
    y * width + x
}

/// The square of a grid of `width` by `height` squares that holds the point, if one does.
pub open spec fn cell_of(width: int, height: int, pt: Pt) -> Option<int> {
    let x = pt.x as int / (RESOLUTION as int);
    let y = pt.y as int / (RESOLUTION as int);
    if 0 <= pt.x && 0 <= pt.y && x < width && y < height {
        Some(cell_index(width, x, y))
    } else {
        None
    }
}

/// The number of pieces into which the segment from `a` to `b` is cut so that no piece is
/// longer than `step`.
pub open spec fn pieces(a: Pt, b: Pt, step: nat) -> nat {
    ((segment_length(a, b) + step - 1) / (step as int)) as nat
}

/// The point `k` of `n` parts of the way from `a` to `b`, each coordinate rounded towards `a`.
pub open spec fn part_way(a: Pt, b: Pt, k: int, n: int) -> Pt {
    Pt { x: part_way_1(a.x as int, b.x as int, k, n), y: part_way_1(a.y as int, b.y as int, k, n) }
}

/// The coordinate `k` of `n` parts of the way from `a` to `b`, rounded towards `a`.
pub open spec fn part_way_1(a: int, b: int, k: int, n: int) -> i32 {
    if b >= a {
        (a + (b - a) * k / n) as i32
    } else {
        (a - (a - b) * k / n) as i32
    }
}

/// The points at which the road is sampled up to its vertex `n`: its vertices, and between
/// two of them as many points at equal distances as keep the samples no more than `step` apart.
pub open spec fn samples(line: Seq<Pt>, step: nat, n: nat) -> Seq<Pt>
    decreases n,
{
    if n == 0 {
        Seq::empty()
    } else if n == 1 {
        seq![line[0]]
    } else {
        let a = line[n - 2];
        let b = line[n - 1];
        let count = pieces(a, b, step);
        samples(line, step, (n - 1) as nat) + Seq::new(
            if count >= 1 {
                (count - 1) as nat
            } else {
                0
            },
            |k: int| part_way(a, b, k + 1, count as int),
        ).push(b)
    }
}

/// The grid once `value` is stamped into the square of each of the first `n` points.
pub open spec fn stamped(
    data: Seq<Option<u64>>,
    width: int,
    height: int,
    pts: Seq<Pt>,
    value: u64,
    n: nat,
) -> Seq<Option<u64>>
    decreases n,
{
    if n == 0 {
        data
    } else {
        let before = stamped(data, width, height, pts, value, (n - 1) as nat);
        match cell_of(width, height, pts[n - 1]) {
            Some(c) => before.update(c, Some(value)),
            None => before,
        }
    }
}

/// The grid once the cost of each of the first `n` roads that is reached is stamped along the
/// road. Where two roads run through one square, the later road wins.
pub open spec fn rastered(g: Graph, first: Seq<Option<u64>>, width: int, height: int, n: nat) -> Seq<
    Option<u64>,
>
    decreases n,
{
    if n == 0 {
        Seq::new((width * height) as nat, |i: int| None::<u64>)
    } else {
        let r = (n - 1) as int;
        let before = rastered(g, first, width, height, (n - 1) as nat);
        match first[r] {
            Some(c) => {
                let pts = samples(
                    g.roads@[r].linestring@,
                    (RESOLUTION / 2) as nat,
                    g.roads@[r].linestring@.len(),
                );
                stamped(before, width, height, pts, c, pts.len())
            },
            None => before,
        }
    }
}

/// The lower end of the band of cost that `ms` milliseconds fall into, in seconds.
pub open spec fn band_of(ms: u64) -> u64 {
    (BAND * (seconds(ms) / BAND)) as u64
}

/// The features of the first `n` squares of a grid, column by column: one for each square that
/// holds a cost.
pub open spec fn cell_features(data: Seq<Option<u64>>, width: int, height: int, n: nat) -> Seq<Feature>
    decreases n,
{
    if n == 0 {
        Seq::empty()
    } else {
        let x = (n - 1) / height;
        let y = (n - 1) % height;
        let before = cell_features(data, width, height, (n - 1) as nat);
        match data[cell_index(width, x, y)] {
            Some(c) => before.push(
                Feature { shape: Shape::Cell(x as usize, y as usize), cost1: band_of(c), cost2: None },
            ),
            None => before,
        }
    }
}

/// What is known of the costs under the second settings, as sequences.
pub open spec fn second_view(second: Option<&Vec<Option<u64>>>) -> Option<Seq<Option<u64>>> {
    match second {
        Some(costs) => Some(costs@),
        None => None,
    }
}

fn second_cost_of(second: Option<&Vec<Option<u64>>>, r: usize) -> (c: Option<u64>)
    requires
        second matches Some(costs) ==> r < costs@.len(),
    ensures
        c == second_cost(second_view(second), r as int),
{
    match second {
        Some(costs) => match costs[r] {
            Some(c) => Some(c / 1000),
            None => None,
        },
        None => None,
    }
}

/// Draws an isochrone as roads: one feature for each road that is reached under the first
/// settings, in the order of the roads.
pub fn draw_roads(first: &Vec<Option<u64>>, second: Option<&Vec<Option<u64>>>) -> (features: Vec<
    Feature,
>)
    requires
        second matches Some(costs) ==> costs@.len() == first@.len(),
    ensures
        features@ == road_features(first@, second_view(second), first@.len()),
{
    let mut features: Vec<Feature> = Vec::new();
    let mut r: usize = 0;
    while r < first.len()
        invariant
            r <= first@.len(),
            second matches Some(costs) ==> costs@.len() == first@.len(),
            features@ == road_features(first@, second_view(second), r as nat),
        decreases first@.len() - r,
    {
        match first[r] {
            Some(c) => {
                features.push(
                    Feature {
                        shape: Shape::Road(RoadID(r)),
                        cost1: c / 1000,
                        cost2: second_cost_of(second, r),
                    },
                );
            },
            None => {},
        }
        r += 1;
    }
    features
}

/// Draws an isochrone as buildings: one feature for each building at a road that is reached
/// under the first settings, in the order of the roads and of the buildings at each.
pub fn draw_buildings(
    buildings: &Vec<Vec<Vec<Pt>>>,
    first: &Vec<Option<u64>>,
    second: Option<&Vec<Option<u64>>>,
) -> (features: Vec<Feature>)
    requires
        buildings@.len() == first@.len(),
        second matches Some(costs) ==> costs@.len() == first@.len(),
    ensures
        features@ == building_features(buildings@, first@, second_view(second), first@.len()),
{
    let mut features: Vec<Feature> = Vec::new();
    let mut r: usize = 0;
    while r < first.len()
        invariant
            r <= first@.len(),
            buildings@.len() == first@.len(),
            second matches Some(costs) ==> costs@.len() == first@.len(),
            features@ == building_features(buildings@, first@, second_view(second), r as nat),
        decreases first@.len() - r,
    {
        match first[r] {
            Some(c) => {
                let cost1 = c / 1000;
                let cost2 = second_cost_of(second, r);
                let ghost before = features@;
                let count = buildings[r].len();
                let mut k: usize = 0;
                while k < count
                    invariant
                        k <= count,
                        features@ == before + buildings_at(r as int, cost1, cost2, k as nat),
                    decreases count - k,
                {
                    features.push(Feature { shape: Shape::Building(RoadID(r), k), cost1, cost2 });
                    assert(buildings_at(r as int, cost1, cost2, (k + 1) as nat) =~= buildings_at(
                        r as int,
                        cost1,
                        cost2,
                        k as nat,
                    ).push(Feature { shape: Shape::Building(RoadID(r), k), cost1, cost2 }));
                    k += 1;
                }
            },
            None => {},
        }
        r += 1;
    }
    features
}

fn part_way_coord(a: i32, b: i32, k: u64, n: u64) -> (c: i32)
    requires
        0 < k <= n,
        n <= 0x2_0000_0000,
    ensures
        c == part_way_1(a as int, b as int, k as int, n as int),
{
    let wide: i128 = if b >= a {
        let d: i128 = b as i128 - a as i128;
        proof {
            lemma_scale_in_range(k as int, 0, n as int, d as int);
        }
        assert(0 <= d * k <= 0x1_0000_0000 * 0x2_0000_0000) by (nonlinear_arith)
            requires
                0 <= d <= 0x1_0000_0000,
                0 <= k <= 0x2_0000_0000,
        ;
        a as i128 + d * (k as i128) / (n as i128)
    } else {
        let d: i128 = a as i128 - b as i128;
        proof {
            lemma_scale_in_range(k as int, 0, n as int, d as int);
        }
        assert(0 <= d * k <= 0x1_0000_0000 * 0x2_0000_0000) by (nonlinear_arith)
            requires
                0 <= d <= 0x1_0000_0000,
                0 <= k <= 0x2_0000_0000,
        ;
        a as i128 - d * (k as i128) / (n as i128)
    };
    wide as i32
}

/// The point `k` of `n` parts of the way from `a` to `b`.
pub(crate) fn point_part_way(a: Pt, b: Pt, k: u64, n: u64) -> (pt: Pt)
    requires
        0 < k <= n,
        n <= 0x2_0000_0000,
    ensures
        pt == part_way(a, b, k as int, n as int),
{
    Pt { x: part_way_coord(a.x, b.x, k, n), y: part_way_coord(a.y, b.y, k, n) }
}

/// Samples a polyline: its vertices, and between two of them as many points at equal distances
/// as keep the samples no more than `step` apart.
pub fn densify(line: &Vec<Pt>, step: u32) -> (pts: Vec<Pt>)
    requires
        step > 0,
    ensures
        pts@ == samples(line@, step as nat, line@.len()),
{
    let mut pts: Vec<Pt> = Vec::new();
    if line.len() == 0 {
        return pts;
    }
    pts.push(line[0]);
    assert(pts@ =~= seq![line@[0]]);
    let mut i: usize = 1;
    while i < line.len()
        invariant
            step > 0,
            1 <= i <= line@.len(),
            pts@ == samples(line@, step as nat, i as nat),
        decreases line@.len() - i,
    {
        let a = line[i - 1];
        let b = line[i];
        let len = segment_len(a, b);
        let count: u64 = (len + (step as u64) - 1) / (step as u64);
        assert(count == pieces(a, b, step as nat));
        assert(count <= 0x2_0000_0000) by (nonlinear_arith)
            requires
                count == (len + step - 1) / (step as int),
                len < 0x2_0000_0000,
                step >= 1,
        ;
        let ghost before = pts@;
        let ghost extra = if count >= 1 {
            (count - 1) as nat
        } else {
            0
        };
        let mut k: u64 = 1;
        while k < count
            invariant
                1 <= k,
                count <= 0x2_0000_0000,
                count >= 1 ==> k <= count,
                pts@ == before + Seq::new(
                    if count >= 1 {
                        (k - 1) as nat
                    } else {
                        0
                    },
                    |j: int| part_way(a, b, j + 1, count as int),
                ),
            decreases count - k,
        {
            let p = Pt { x: part_way_coord(a.x, b.x, k, count), y: part_way_coord(a.y, b.y, k, count) };
            pts.push(p);
            assert(Seq::new(k as nat, |j: int| part_way(a, b, j + 1, count as int)) =~= Seq::new(
                (k - 1) as nat,
                |j: int| part_way(a, b, j + 1, count as int),
            ).push(p));
            k += 1;
        }
        assert(pts@ == before + Seq::new(extra, |j: int| part_way(a, b, j + 1, count as int))) by {
            if count < 1 {
                assert(Seq::new(0, |j: int| part_way(a, b, j + 1, count as int)) =~= Seq::<
                    Pt,
                >::empty());
            }
        }
        pts.push(b);
        assert(pts@ =~= before + Seq::new(extra, |j: int| part_way(a, b, j + 1, count as int)).push(b));
        i += 1;
    }
    pts
}

impl Grid {
    /// The grid has as many squares as its width and its height say.
    pub open spec fn wf(self) -> bool {
        self.data@.len() == self.width * self.height
    }

    /// A grid of `width` by `height` squares, none of which holds a cost.
    pub fn new(width: usize, height: usize) -> (grid: Grid)
        requires
            width * height <= usize::MAX,
        ensures
            grid.wf(),
            grid.width == width,
            grid.height == height,
            grid.data@ == Seq::new((width * height) as nat, |i: int| None::<u64>),
    {
        let total: usize = width * height;
        let mut data: Vec<Option<u64>> = Vec::new();
        let mut i: usize = 0;
        while i < total
            invariant
                i <= total,
                data@ == Seq::new(i as nat, |j: int| None::<u64>),
            decreases total - i,
        {
            data.push(None);
            assert(data@ =~= Seq::new((i + 1) as nat, |j: int| None::<u64>));
            i += 1;
        }
        Grid { width, height, data }
    }

    /// Where the square in column `x` and row `y` stands among the squares.
    pub fn idx(&self, x: usize, y: usize) -> (i: usize)
        requires
            self.wf(),
            x < self.width,
            y < self.height,
        ensures
            i == cell_index(self.width as int, x as int, y as int),
            i < self.data@.len(),
    {
        let total = self.data.len();
        assert(y * self.width + x < self.width * self.height && 0 <= y * self.width) by (nonlinear_arith)
            requires
                x < self.width,
                y < self.height,
        ;
        y * self.width + x
    }

    /// Stamps `value` into the square of each of `pts`. A point outside the grid is passed over.
    pub fn stamp(&mut self, pts: &Vec<Pt>, value: u64)
        requires
            old(self).wf(),
        ensures
            final(self).wf(),
            final(self).width == old(self).width,
            final(self).height == old(self).height,
            final(self).data@ == stamped(
                old(self).data@,
                old(self).width as int,
                old(self).height as int,
                pts@,
                value,
                pts@.len(),
            ),
    {
        let mut i: usize = 0;
        while i < pts.len()
            invariant
                i <= pts@.len(),
                self.wf(),
                self.width == old(self).width,
                self.height == old(self).height,
                self.data@ == stamped(
                    old(self).data@,
                    self.width as int,
                    self.height as int,
                    pts@,
                    value,
                    i as nat,
                ),
            decreases pts@.len() - i,
        {
            let p = pts[i];
            if p.x >= 0 && p.y >= 0 {
                let x = (p.x as u32 / RESOLUTION) as usize;
                let y = (p.y as u32 / RESOLUTION) as usize;
                if x < self.width && y < self.height {
                    let at = self.idx(x, y);
                    self.data[at] = Some(value);
                }
            }
            i += 1;
        }
    }
}

/// Stamps the cost of each road that is reached along the road, into a grid of `width` by
/// `height` squares. Where two roads run through one square, the later road wins.
pub fn raster(g: &Graph, first: &Vec<Option<u64>>, width: usize, height: usize) -> (grid: Grid)
    requires
        first@.len() == g.roads@.len(),
        width * height <= usize::MAX,
    ensures
        grid.wf(),
        grid.width == width,
        grid.height == height,
        grid.data@ == rastered(*g, first@, width as int, height as int, first@.len()),
{
    let mut grid = Grid::new(width, height);
    let mut r: usize = 0;
    while r < first.len()
        invariant
            r <= first@.len(),
            first@.len() == g.roads@.len(),
            grid.wf(),
            grid.width == width,
            grid.height == height,
            grid.data@ == rastered(*g, first@, width as int, height as int, r as nat),
        decreases first@.len() - r,
    {
        match first[r] {
            Some(c) => {
                let pts = densify(&g.roads[r].linestring, RESOLUTION / 2);
                grid.stamp(&pts, c);
            },
            None => {},
        }
        r += 1;
    }
    grid
}

/// Draws a grid: one feature for each square that holds a cost, column by column, with the
/// lower end of the band that the cost falls into.
pub fn render_grid(grid: &Grid) -> (features: Vec<Feature>)
    requires
        grid.wf(),
    ensures
        features@ == cell_features(
            grid.data@,
            grid.width as int,
            grid.height as int,
            (grid.width * grid.height) as nat,
        ),
{
    let mut features: Vec<Feature> = Vec::new();
    let mut x: usize = 0;
    assert(0 * grid.height == 0) by (nonlinear_arith);
    while x < grid.width
        invariant
            grid.wf(),
            x <= grid.width,
            features@ == cell_features(
                grid.data@,
                grid.width as int,
                grid.height as int,
                (x * grid.height) as nat,
            ),
        decreases grid.width - x,
    {
        let mut y: usize = 0;
        while y < grid.height
            invariant
                grid.wf(),
                x < grid.width,
                y <= grid.height,
                features@ == cell_features(
                    grid.data@,
                    grid.width as int,
                    grid.height as int,
                    (x * grid.height + y) as nat,
                ),
            decreases grid.height - y,
        {
            proof {
                let n = x * grid.height + y;
                vstd::arithmetic::div_mod::lemma_fundamental_div_mod_converse(
                    n as int,
                    grid.height as int,
                    x as int,
                    y as int,
                );
            }
            match grid.data[grid.idx(x, y)] {
                Some(c) => {
                    features.push(
                        Feature { shape: Shape::Cell(x, y), cost1: BAND * (c / 1000 / BAND), cost2: None },
                    );
                },
                None => {},
            }
            y += 1;
        }
        assert((x + 1) * grid.height == x * grid.height + grid.height) by (nonlinear_arith);
        x += 1;
    }
    features
}

/// The milliseconds in `mins` minutes, or the most that 64 bits hold where they are more.
pub open spec fn limit_of(mins: u64) -> u64 {
    if mins * 60_000 <= u64::MAX {
        (mins * 60_000) as u64
    } else {
        u64::MAX
    }
}

/// The number of squares that it takes to cover `extent` centimetres.
pub open spec fn squares(extent: u32) -> int {
    (extent + RESOLUTION - 1) / (RESOLUTION as int)
}

/// The features that draw an isochrone in the given style.
pub open spec fn drawn(
    map: MapModel,
    style: Style,
    first: Seq<Option<u64>>,
    second: Option<Seq<Option<u64>>>,
) -> Seq<Feature> {
    match style {
        Style::Roads => road_features(first, second, first.len()),
        Style::Dasymetric => building_features(map.buildings_per_road@, first, second, first.len()),
        Style::Grid => {
            let w = squares(map.mercator.width);
            let h = squares(map.mercator.height);
            cell_features(rastered(map.graph, first, w, h, first.len()), w, h, (w * h) as nat)
        },
        Style::Contours => Seq::empty(),
    }
}

/// An isochrone: where the start landed and what each road costs, under the first settings and
/// under the second where there are any, and the features that draw it.
#[derive(Debug)]
pub struct Isochrone {
    pub start1: crate::router::SnappedPosition,
    pub costs1: RoadCosts,
    pub second: Option<(crate::router::SnappedPosition, RoadCosts)>,
    pub features: Vec<Feature>,
}

impl Isochrone {
    /// The costs of the roads under the second settings, where there are any.
    pub open spec fn second_roads(self) -> Option<Seq<Option<u64>>> {
        match self.second {
            Some((_, costs)) => Some(costs.roads@),
            None => None,
        }
    }
}

/// Where `pt` lands and what each road costs from there within `limit`, on the graph of `map`.
pub open spec fn costed(
    map: MapModel,
    walker: Walker,
    pt: Pt,
    limit: u64,
    at: crate::router::SnappedPosition,
    costs: RoadCosts,
) -> bool {
    &&& snaps_to(map.graph, walker, pt, at)
    &&& costs.answers(map.graph, walker, seq![at.intersection], limit)
}

/// What a request for an isochrone comes to. The costs under the first settings are those of
/// the model `mid`, prepared for the first settings; those under the second settings are those
/// of the model as it is left, prepared for the second settings after that.
pub open spec fn isochrone_of(
    before: MapModel,
    mid: MapModel,
    after: MapModel,
    start: Pt,
    style: Style,
    time_limit_mins: u64,
    settings1: Settings,
    settings2: Option<Settings>,
    iso: Isochrone,
) -> bool {
    let limit = limit_of(time_limit_mins);
    &&& mid.prepared(before, settings1)
    &&& costed(mid, settings1.walker_of(), start, limit, iso.start1, iso.costs1)
    &&& match settings2 {
        Some(s2) => {
            &&& after.prepared(mid, s2)
            &&& iso.second matches Some((at, costs))
            &&& costed(after, s2.walker_of(), start, limit, at, costs)
        },
        None => after == mid && iso.second is None,
    }
    &&& iso.features@ == drawn(after, style, iso.costs1.roads@, iso.second_roads())
}

/// Bringing costs up to new settings opens and closes no road.
pub proof fn lemma_prepared_keeps_passable(before: MapModel, after: MapModel, settings: Settings)
    requires
        after.prepared(before, settings),
    ensures
        forall|walker: Walker, r: int|
            0 <= r < before.graph.roads@.len() ==> (#[trigger] passable(
                after.graph,
                walker,
                RoadID(r as usize),
            ) <==> passable(before.graph, walker, RoadID(r as usize))),
        forall|walker: Walker| #[trigger]
            stranded(after.graph, walker) <==> stranded(before.graph, walker),
{
    assert(before.graph.roads.len() == before.graph.roads@.len());
    assert forall|walker: Walker, r: int| 0 <= r < before.graph.roads@.len() implies (
    #[trigger] passable(after.graph, walker, RoadID(r as usize)) <==> passable(
        before.graph,
        walker,
        RoadID(r as usize),
    )) by {
        assert(crate::model::road_refreshed(
            before.graph.roads@[r],
            after.graph.roads@[r],
            settings.walker_of(),
            settings,
        ));
    }
    assert forall|walker: Walker| #[trigger]
        stranded(after.graph, walker) <==> stranded(before.graph, walker) by {
        if stranded(after.graph, walker) {
            assert forall|r: int| 0 <= r < before.graph.roads@.len() implies !#[trigger] passable(
                before.graph,
                walker,
                RoadID(r as usize),
            ) by {
                assert(!passable(after.graph, walker, RoadID(r as usize)));
            }
        }
        if stranded(before.graph, walker) {
            assert forall|r: int| 0 <= r < after.graph.roads@.len() implies !#[trigger] passable(
                after.graph,
                walker,
                RoadID(r as usize),
            ) by {
                assert(!passable(before.graph, walker, RoadID(r as usize)));
            }
        }
    }
}

fn cells(extent: u32) -> (n: usize)
    ensures
        n == squares(extent),
{
    ((extent as u64 + RESOLUTION as u64 - 1) / (RESOLUTION as u64)) as usize
}

fn snap_and_cost(map: &MapModel, walker: Walker, pt: Pt, limit: u64) -> (found: Option<
    (crate::router::SnappedPosition, RoadCosts),
>)
    requires
        map.wf(),
    ensures
        found is None <==> stranded(map.graph, walker),
        found matches Some((at, costs)) ==> costed(*map, walker, pt, limit, at, costs),
{
    match snap_to_road(&map.graph, walker, pt) {
        Some(at) => {
            let mut roots: Vec<IntersectionID> = Vec::new();
            roots.push(at.intersection);
            assert(roots@ =~= seq![at.intersection]);
            let costs = get_costs(&map.graph, walker, &roots, limit);
            Some((at, costs))
        },
        None => None,
    }
}

impl MapModel {
    /// Whether a grid over the frame of the model has no more squares than can be counted.
    pub fn grid_fits(&self) -> (fits: bool)
        ensures
            fits == (squares(self.mercator.width) * squares(self.mercator.height) <= usize::MAX),
    {
        let across = cells(self.mercator.width);
        let down = cells(self.mercator.height);
        assert(0 <= across * down <= 0x1_0000_0000 * 0x1_0000_0000) by (nonlinear_arith)
            requires
                0 <= across <= 0x1_0000_0000,
                0 <= down <= 0x1_0000_0000,
        ;
        let total: u128 = across as u128 * down as u128;
        total <= usize::MAX as u128
    }

    /// Computes what a walker reaches from `start` within `time_limit_mins` minutes and draws
    /// it in the given style. With second settings, each road or building that is reached
    /// under the first also shows its cost under the second.
    ///
    /// The costs of the model are brought up to the first settings, then to the second. Fails
    /// with `NotSnappable` where a walker that the settings describe may take no road at all.
    pub fn calculate_isochrone(
        &mut self,
        start: Pt,
        style: Style,
        time_limit_mins: u64,
        settings1: Settings,
        settings2: Option<Settings>,
    ) -> (answer: Result<Isochrone, Error>)
        requires
            old(self).wf(),
            settings1.base_speed_mph > 0,
            settings2 matches Some(s2) ==> s2.base_speed_mph > 0,
            style is Grid ==> squares(old(self).mercator.width) * squares(old(self).mercator.height)
                <= usize::MAX,
        ensures
            final(self).wf(),
            match answer {
                Ok(iso) => exists|mid: MapModel| #[trigger]
                    isochrone_of(
                        *old(self),
                        mid,
                        *final(self),
                        start,
                        style,
                        time_limit_mins,
                        settings1,
                        settings2,
                        iso,
                    ),
                Err(e) => e == Error::NotSnappable,
            },
            answer is Err <==> stranded(old(self).graph, settings1.walker_of()) || (
            settings2 matches Some(s2) && stranded(old(self).graph, s2.walker_of())),
    {
        let limit: u64 = match time_limit_mins.checked_mul(60_000) {
            Some(l) => l,
            None => u64::MAX,
        };
        let walker1 = self.prepare_profile(settings1);
        proof {
            lemma_prepared_keeps_passable(*old(self), *self, settings1);
        }
        let (start1, costs1) = match snap_and_cost(self, walker1, start, limit) {
            Some(found) => found,
            None => {
                assert(stranded(self.graph, walker1));
                return Err(Error::NotSnappable);
            },
        };
        let ghost mid = *self;
        assert(!stranded(mid.graph, walker1)) by {
            assert(passable(mid.graph, walker1, RoadID(start1.road.0)));
        }
        let second = match settings2 {
            Some(s2) => {
                let walker2 = self.prepare_profile(s2);
                proof {
                    lemma_prepared_keeps_passable(mid, *self, s2);
                }
                match snap_and_cost(self, walker2, start, limit) {
                    Some(found) => {
                        assert(!stranded(self.graph, walker2)) by {
                            assert(passable(self.graph, walker2, RoadID(found.0.road.0)));
                        }
                        Some(found)
                    },
                    None => {
                        assert(stranded(self.graph, walker2));
                        return Err(Error::NotSnappable);
                    },
                }
            },
            None => None,
        };
        let features = {
            let second_roads = match &second {
                Some((_, costs)) => Some(&costs.roads),
                None => None,
            };
            match style {
                Style::Roads => draw_roads(&costs1.roads, second_roads),
                Style::Dasymetric => draw_buildings(&self.buildings_per_road, &costs1.roads, second_roads),
                Style::Grid => {
                    let w = cells(self.mercator.width);
                    let h = cells(self.mercator.height);
                    let grid = raster(&self.graph, &costs1.roads, w, h);
                    render_grid(&grid)
                },
                Style::Contours => Vec::new(),
            }
        };
        let iso = Isochrone { start1, costs1, second, features };
        proof {
            assert(isochrone_of(
                *old(self),
                mid,
                *self,
                start,
                style,
                time_limit_mins,
                settings1,
                settings2,
                iso,
            ));
        }
        Ok(iso)
    }
}

} // verus!
