//! Measuring severances: how far apart their crossings are, and how long the way round is for
//! somebody who wants to get to the other side.

use crate::error::Error;
use crate::geometry::{
    clamp_u64, copy_points, lemma_length_concat, line_length, segment_len, segment_length, Pt,
};
use crate::graph::{Graph, RoadID};
use crate::isochrone::{densify, part_way, point_part_way, samples};
use crate::join_lines::{all_drawn, collapse_degree_2, collapsed, KeyedLineString};
use crate::model::{Crossing, MapModel};
use crate::profiles::RoadKind;
use crate::route::{do_route, routed, RouteSummary};
use crate::router::{projection, segment_distance, snap_to_segment};
use crate::settings::Settings;
use crate::tags::{str_eq, tag_has};
use vstd::prelude::*;

verus! {

/// The crossing lies on one of the roads that the line is made of.
pub open spec fn lies_on(crossing: Crossing, line: KeyedLineString<RoadID>) -> bool {
    exists|k: int, m: int|
        0 <= k < crossing.roads@.len() && 0 <= m < line.ids@.len() && #[trigger] crossing.roads@[k]
            == (#[trigger] line.ids@[m]).0
}

/// One of `kinds` is the string `s`.
pub open spec fn names(kinds: Seq<String>, s: Seq<char>) -> bool {
    exists|k: int| 0 <= k < kinds.len() && (#[trigger] kinds[k])@ == s
}

/// The crossing is of a kind that is asked for: its `crossing` tag is one of `kinds`, or it
/// has no such tag and `unknown` is one of `kinds`.
pub open spec fn wanted(crossing: Crossing, kinds: Seq<String>) -> bool {
    if tag_has(crossing.tags@, "crossing"@) {
        names(kinds, crossing.tags@["crossing"@])
    } else {
        names(kinds, "unknown"@)
    }
}

/// Where on a polyline the point nearest to `p` lies, going by the first `n` points of the
/// polyline: how far from `p` it is, on which segment it lies (the first that is as near as
/// any), and how far along that segment. A polyline of fewer than two points has no segment.
pub open spec fn nearest(line: Seq<Pt>, p: Pt, n: nat) -> (nat, int, nat)
    decreases n,
{
    if n < 2 {
        (0, -1, 0)
    } else {
        let a = line[n - 2];
        let b = line[n - 1];
        let here = (segment_distance(a, b, p), n - 2, projection(a, b, p));
        if n == 2 {
            here
        } else {
            let before = nearest(line, p, (n - 1) as nat);
            if here.0 < before.0 {
                here
            } else {
                before
            }
        }
    }
}

/// How far along a polyline each of its points lies, in centimetres.
pub open spec fn arcs_of(line: Seq<Pt>) -> Seq<u64> {
    Seq::new(line.len(), |i: int| clamp_u64(line_length(line.take(i + 1))))
}

/// How far along a line a place lies that is `t` behind a point at `from`, on the way to a
/// point at `to`: no farther than that point.
pub open spec fn place_between(from: u64, to: u64, t: nat) -> u64 {
    if from <= to && t <= to - from {
        (from + t) as u64
    } else if from <= to {
        to
    } else {
        from
    }
}

/// A polyline, the marks of its points and how far along the line each point lies, once the
/// place on the polyline that is nearest to `p` is marked. Where that place is an end of its
/// segment, the point there is marked; otherwise the place becomes a point of the polyline,
/// and is marked. A polyline of fewer than two points stays as it is.
pub open spec fn marked_at(line: Seq<Pt>, marks: Seq<bool>, arcs: Seq<u64>, p: Pt) -> (
    Seq<Pt>,
    Seq<bool>,
    Seq<u64>,
) {
    if line.len() < 2 {
        (line, marks, arcs)
    } else {
        let (_, s, t) = nearest(line, p, line.len());
        let len = segment_length(line[s], line[s + 1]);
        if t == 0 {
            (line, marks.update(s, true), arcs)
        } else if t >= len {
            (line, marks.update(s + 1, true), arcs)
        } else {
            (
                line.insert(s + 1, part_way(line[s], line[s + 1], t as int, len as int)),
                marks.insert(s + 1, true),
                arcs.insert(s + 1, place_between(arcs[s], arcs[s + 1], t)),
            )
        }
    }
}

/// The points of a line, the marks at which it is cut and how far along the line each point
/// lies, going by the first `n` crossings. The line is cut at its first and its last point,
/// and at the place nearest to each crossing that is asked for and lies on one of the roads of
/// the line; crossing after crossing, each on the line with the places of those before it.
pub open spec fn cut_marks(
    line: KeyedLineString<RoadID>,
    crossings: Seq<Crossing>,
    kinds: Seq<String>,
    n: nat,
) -> (Seq<Pt>, Seq<bool>, Seq<u64>)
    decreases n,
{
    if n == 0 {
        let len = line.linestring@.len();
        (
            line.linestring@,
            Seq::new(len, |idx: int| idx == 0 || idx == len - 1),
            arcs_of(line.linestring@),
        )
    } else {
        let before = cut_marks(line, crossings, kinds, (n - 1) as nat);
        if wanted(crossings[n - 1], kinds) && lies_on(crossings[n - 1], line) {
            marked_at(before.0, before.1, before.2, crossings[n - 1].point)
        } else {
            before
        }
    }
}

/// A line that is being cut is in order: each point has a mark and a distance along the
/// line, the distances do not fall, and the last point is marked.
pub open spec fn cut_wf(pts: Seq<Pt>, marks: Seq<bool>, arcs: Seq<u64>) -> bool {
    &&& marks.len() == pts.len()
    &&& arcs.len() == pts.len()
    &&& forall|i: int| 0 <= i < arcs.len() - 1 ==> #[trigger] arcs[i] <= arcs[i + 1]
    &&& pts.len() > 0 ==> marks.last()
}

/// The nearest segment is a segment of the polyline.
pub proof fn lemma_nearest_in_range(line: Seq<Pt>, p: Pt, n: nat)
    requires
        2 <= n,
    ensures
        0 <= nearest(line, p, n).1 <= n - 2,
    decreases n,
{
    if n > 2 {
        lemma_nearest_in_range(line, p, (n - 1) as nat);
    }
}

/// A new point between two points of a line that is being cut, no nearer to the start than
/// the one and no farther than the other, leaves the line in order.
proof fn lemma_insert_in_order(
    line: Seq<Pt>,
    marks: Seq<bool>,
    arcs: Seq<u64>,
    s: int,
    q: Pt,
    along: u64,
)
    requires
        cut_wf(line, marks, arcs),
        0 <= s < line.len() - 1,
        arcs[s] <= along <= arcs[s + 1],
    ensures
        cut_wf(line.insert(s + 1, q), marks.insert(s + 1, true), arcs.insert(s + 1, along)),
        line.insert(s + 1, q)[0] == line[0],
        line.insert(s + 1, q).last() == line.last(),
        arcs.insert(s + 1, along)[0] == arcs[0],
        arcs.insert(s + 1, along).last() == arcs.last(),
{
    let arcs2 = arcs.insert(s + 1, along);
    let marks2 = marks.insert(s + 1, true);
    assert forall|i: int| 0 <= i < arcs2.len() - 1 implies #[trigger] arcs2[i] <= arcs2[i + 1] by {
        if i < s {
            assert(arcs2[i] == arcs[i] && arcs2[i + 1] == arcs[i + 1]);
        } else if i == s {
            assert(arcs2[i] == arcs[s] && arcs2[i + 1] == along);
        } else if i == s + 1 {
            assert(arcs2[i] == along && arcs2[i + 1] == arcs[s + 1]);
        } else {
            assert(arcs2[i] == arcs[i - 1] && arcs2[i + 1] == arcs[i - 1 + 1]);
        }
    }
    assert(marks2.last() == marks.last());
}

/// Marking a place leaves a line that is being cut in order, and its first and its last point
/// where they were, as far along the line as they were.
pub proof fn lemma_marked_at(line: Seq<Pt>, marks: Seq<bool>, arcs: Seq<u64>, p: Pt)
    requires
        cut_wf(line, marks, arcs),
    ensures
        ({
            let (pts2, marks2, arcs2) = marked_at(line, marks, arcs, p);
            &&& cut_wf(pts2, marks2, arcs2)
            &&& pts2.len() >= line.len()
            &&& line.len() == 0 ==> pts2.len() == 0
            &&& line.len() > 0 ==> pts2[0] == line[0] && pts2.last() == line.last() && arcs2[0]
                == arcs[0] && arcs2.last() == arcs.last()
        }),
{
    if line.len() >= 2 {
        lemma_nearest_in_range(line, p, line.len());
        let (_, s, t) = nearest(line, p, line.len());
        let len = segment_length(line[s], line[s + 1]);
        if t != 0 && t < len {
            assert(arcs[s] <= arcs[s + 1]);
            lemma_insert_in_order(
                line,
                marks,
                arcs,
                s,
                part_way(line[s], line[s + 1], t as int, len as int),
                place_between(arcs[s], arcs[s + 1], t),
            );
        }
    }
}

/// The distances along a polyline do not fall from point to point, start at nothing and end
/// at the length of the polyline.
pub proof fn lemma_arcs_of(line: Seq<Pt>)
    ensures
        arcs_of(line).len() == line.len(),
        forall|i: int| 0 <= i < line.len() - 1 ==> #[trigger] arcs_of(line)[i] <= arcs_of(line)[i + 1],
        line.len() > 0 ==> arcs_of(line)[0] == 0 && arcs_of(line).last() == clamp_u64(
            line_length(line),
        ),
{
    assert forall|i: int| 0 <= i < line.len() - 1 implies #[trigger] arcs_of(line)[i] <= arcs_of(
        line,
    )[i + 1] by {
        assert(line.take(i + 2).drop_last() =~= line.take(i + 1));
    }
    if line.len() > 0 {
        assert(line.take(1).len() < 2);
        assert(line.take(line.len() as int) =~= line);
    }
}

/// Cutting a line leaves it in order, from nothing at its first point to its length at its
/// last.
pub proof fn lemma_cut_marks(
    line: KeyedLineString<RoadID>,
    crossings: Seq<Crossing>,
    kinds: Seq<String>,
    n: nat,
)
    ensures
        ({
            let (pts, marks, arcs) = cut_marks(line, crossings, kinds, n);
            &&& cut_wf(pts, marks, arcs)
            &&& pts.len() >= line.linestring@.len()
            &&& line.linestring@.len() == 0 ==> pts.len() == 0
            &&& pts.len() > 0 ==> pts[0] == line.linestring@[0] && pts.last() == line.linestring@.last()
                && arcs[0] == 0 && arcs.last() == clamp_u64(line_length(line.linestring@))
        }),
    decreases n,
{
    if n > 0 {
        lemma_cut_marks(line, crossings, kinds, (n - 1) as nat);
        let before = cut_marks(line, crossings, kinds, (n - 1) as nat);
        lemma_marked_at(before.0, before.1, before.2, crossings[n - 1].point);
    } else {
        lemma_arcs_of(line.linestring@);
    }
}

/// How far apart two places along a line are.
pub open spec fn gap(from: u64, to: u64) -> u64 {
    if from <= to {
        (to - from) as u64
    } else {
        0
    }
}

/// The lengths of the pieces that end among the first `n` points of a line: from each marked
/// point to the next, measured along the line.
pub open spec fn lengths_upto(arcs: Seq<u64>, marks: Seq<bool>, n: nat) -> Seq<u64>
    decreases n,
{
    if n == 0 {
        Seq::empty()
    } else {
        let idx = n - 1;
        let before = lengths_upto(arcs, marks, (n - 1) as nat);
        if idx > 0 && marks[idx] {
            before.push(gap(arcs[last_mark(marks, idx - 1)], arcs[idx]))
        } else {
            before
        }
    }
}

/// Lengths added up.
pub open spec fn sum_of(lengths: Seq<u64>) -> nat
    decreases lengths.len(),
{
    if lengths.len() == 0 {
        0
    } else {
        sum_of(lengths.drop_last()) + lengths.last() as nat
    }
}

/// The last vertex at or before `idx` that is marked.
pub open spec fn last_mark(marks: Seq<bool>, idx: int) -> int
    decreases idx,
{
    if idx <= 0 {
        0
    } else if marks[idx] {
        idx
    } else {
        last_mark(marks, idx - 1)
    }
}

/// The pieces that end among the first `n` vertices of a line: one from each marked vertex to
/// the next.
pub open spec fn pieces_upto(line: Seq<Pt>, marks: Seq<bool>, n: nat) -> Seq<Seq<Pt>>
    decreases n,
{
    if n == 0 {
        Seq::empty()
    } else {
        let idx = n - 1;
        let before = pieces_upto(line, marks, (n - 1) as nat);
        if idx > 0 && marks[idx] {
            before.push(line.subrange(last_mark(marks, idx - 1), idx + 1))
        } else {
            before
        }
    }
}

/// The lengths of the pieces, added up.
pub open spec fn total_length(pieces: Seq<Seq<Pt>>) -> nat
    decreases pieces.len(),
{
    if pieces.len() == 0 {
        0
    } else {
        total_length(pieces.drop_last()) + line_length(pieces.last())
    }
}

proof fn lemma_last_mark(marks: Seq<bool>, idx: int)
    requires
        0 <= idx < marks.len(),
    ensures
        0 <= last_mark(marks, idx) <= idx,
        idx > 0 && marks[idx] ==> last_mark(marks, idx) == idx,
    decreases idx,
{
    if idx > 0 && !marks[idx] {
        lemma_last_mark(marks, idx - 1);
    }
}

/// The pieces found among the first vertices are as long together as the line is up to the
/// last mark among them.
proof fn lemma_pieces_length(line: Seq<Pt>, marks: Seq<bool>, n: nat)
    requires
        1 <= n <= line.len(),
        marks.len() == line.len(),
    ensures
        total_length(pieces_upto(line, marks, n)) == line_length(
            line.subrange(0, last_mark(marks, n - 1) + 1),
        ),
    decreases n,
{
    let idx = n - 1;
    if n == 1 {
        assert(pieces_upto(line, marks, 1) =~= Seq::<Seq<Pt>>::empty());
        assert(line.subrange(0, 1).len() < 2);
    } else {
        lemma_pieces_length(line, marks, (n - 1) as nat);
        lemma_last_mark(marks, idx - 1);
        let before = pieces_upto(line, marks, (n - 1) as nat);
        if marks[idx] {
            let from = last_mark(marks, idx - 1);
            let piece = line.subrange(from, idx + 1);
            let head = line.subrange(0, from + 1);
            assert(pieces_upto(line, marks, n).drop_last() =~= before);
            lemma_length_concat(head, piece);
            assert(head + piece.skip(1) =~= line.subrange(0, idx + 1));
        }
    }
}

/// The pieces into which a line is cut are as long together as the line.
pub proof fn lemma_split_keeps_length(line: Seq<Pt>, marks: Seq<bool>)
    requires
        marks.len() == line.len(),
        line.len() > 0 ==> marks[line.len() - 1],
    ensures
        total_length(pieces_upto(line, marks, line.len())) == line_length(line),
{
    if line.len() > 0 {
        lemma_pieces_length(line, marks, line.len());
        lemma_last_mark(marks, line.len() - 1);
        if line.len() == 1 {
        }
        assert(line.subrange(0, line.len() as int) =~= line);
    }
}

fn has_road(ids: &Vec<(RoadID, bool)>, road: RoadID) -> (found: bool)
    ensures
        found == exists|m: int| 0 <= m < ids@.len() && (#[trigger] ids@[m]).0 == road,
{
    let mut m: usize = 0;
    while m < ids.len()
        invariant
            m <= ids@.len(),
            forall|j: int| 0 <= j < m ==> (#[trigger] ids@[j]).0 != road,
        decreases ids@.len() - m,
    {
        if ids[m].0.0 == road.0 {
            return true;
        }
        m += 1;
    }
    false
}

/// Whether the crossing lies on one of the roads that the line is made of.
pub fn crossing_on_line(crossing: &Crossing, line: &KeyedLineString<RoadID>) -> (on: bool)
    ensures
        on == lies_on(*crossing, *line),
{
    let mut k: usize = 0;
    while k < crossing.roads.len()
        invariant
            k <= crossing.roads@.len(),
            forall|a: int, m: int|
                0 <= a < k && 0 <= m < line.ids@.len() ==> #[trigger] crossing.roads@[a] != (
                #[trigger] line.ids@[m]).0,
        decreases crossing.roads@.len() - k,
    {
        if has_road(&line.ids, crossing.roads[k]) {
            return true;
        }
        k += 1;
    }
    false
}

/// Finds the place on a polyline that is nearest to `p`: the segment on which it lies, the
/// first that is as near as any, and how far along that segment. `None` for a polyline of
/// fewer than two points.
pub fn find_nearest(line: &Vec<Pt>, p: Pt) -> (found: Option<(usize, u64)>)
    ensures
        found is None <==> line@.len() < 2,
        found matches Some((s, t)) ==> s + 1 < line@.len() && s == nearest(line@, p, line@.len()).1
            && t == nearest(line@, p, line@.len()).2,
{
    if line.len() < 2 {
        return None;
    }
    let first = snap_to_segment(line[0], line[1], p);
    let mut least: u128 = first.0;
    let mut best: (usize, u64) = (0, first.1);
    let mut i: usize = 2;
    while i < line.len()
        invariant
            2 <= i <= line@.len(),
            least == nearest(line@, p, i as nat).0,
            best.0 == nearest(line@, p, i as nat).1,
            best.1 == nearest(line@, p, i as nat).2,
            best.0 + 2 <= i,
        decreases line@.len() - i,
    {
        let here = snap_to_segment(line[i - 1], line[i], p);
        if here.0 < least {
            least = here.0;
            best = (i - 1, here.1);
        }
        i += 1;
    }
    Some(best)
}

/// Marks the place on a polyline that is nearest to `p`.
pub fn mark_place(line: &mut Vec<Pt>, marks: &mut Vec<bool>, arcs: &mut Vec<u64>, p: Pt)
    requires
        old(marks)@.len() == old(line)@.len(),
        old(arcs)@.len() == old(line)@.len(),
    ensures
        (final(line)@, final(marks)@, final(arcs)@) == marked_at(
            old(line)@,
            old(marks)@,
            old(arcs)@,
            p,
        ),
        final(marks)@.len() == final(line)@.len(),
        final(arcs)@.len() == final(line)@.len(),
{
    match find_nearest(line, p) {
        None => {},
        Some((s, t)) => {
            let n = line.len();
            assert(s + 1 < n);
            let a = line[s];
            let b = line[s + 1];
            let len = segment_len(a, b);
            if t == 0 {
                marks[s] = true;
            } else if t >= len {
                marks[s + 1] = true;
            } else {
                let place = point_part_way(a, b, t, len);
                let from = arcs[s];
                let to = arcs[s + 1];
                let along = if from <= to && t <= to - from {
                    from + t
                } else if from <= to {
                    to
                } else {
                    from
                };
                line.insert(s + 1, place);
                marks.insert(s + 1, true);
                arcs.insert(s + 1, along);
            }
        },
    }
}

fn names_kind(kinds: &Vec<String>, s: &str) -> (found: bool)
    ensures
        found == names(kinds@, s@),
{
    let mut k: usize = 0;
    while k < kinds.len()
        invariant
            k <= kinds@.len(),
            forall|j: int| 0 <= j < k ==> (#[trigger] kinds@[j])@ != s@,
        decreases kinds@.len() - k,
    {
        if str_eq(kinds[k].as_str(), s) {
            return true;
        }
        k += 1;
    }
    false
}

/// Whether the crossing is of a kind that is asked for.
pub fn is_wanted(crossing: &Crossing, include_kinds: &Vec<String>) -> (yes: bool)
    ensures
        yes == wanted(*crossing, include_kinds@),
{
    match crossing.tags.get("crossing") {
        Some(kind) => names_kind(include_kinds, kind.as_str()),
        None => names_kind(include_kinds, "unknown"),
    }
}

/// How far along a polyline each of its points lies.
pub fn measure_arcs(line: &Vec<Pt>) -> (arcs: Vec<u64>)
    ensures
        arcs@ == arcs_of(line@),
{
    let mut arcs: Vec<u64> = Vec::new();
    if line.len() == 0 {
        assert(arcs@ =~= arcs_of(line@));
        return arcs;
    }
    let mut total: u64 = 0;
    arcs.push(0);
    assert(line@.take(1).len() < 2);
    let mut i: usize = 1;
    while i < line.len()
        invariant
            1 <= i <= line@.len(),
            total == clamp_u64(line_length(line@.take(i as int))),
            arcs@.len() == i,
            forall|k: int| 0 <= k < i ==> #[trigger] arcs@[k] == clamp_u64(line_length(line@.take(k + 1))),
        decreases line@.len() - i,
    {
        let seg = segment_len(line[i - 1], line[i]);
        proof {
            let next = line@.take(i + 1);
            assert(next.drop_last() =~= line@.take(i as int));
            assert(next[next.len() - 2] == line@[i - 1]);
            assert(next.last() == line@[i as int]);
        }
        total = total.saturating_add(seg);
        arcs.push(total);
        i += 1;
    }
    assert(arcs@ =~= arcs_of(line@));
    arcs
}

/// Works out the points of a line, the marks at which it is cut, and how far along the line
/// each point lies.
pub fn mark_cuts(
    line: &KeyedLineString<RoadID>,
    crossings: &Vec<Crossing>,
    include_kinds: &Vec<String>,
) -> (cut: (Vec<Pt>, Vec<bool>, Vec<u64>))
    ensures
        (cut.0@, cut.1@, cut.2@) == cut_marks(*line, crossings@, include_kinds@, crossings@.len()),
        cut.1@.len() == cut.0@.len(),
        cut.2@.len() == cut.0@.len(),
{
    let n = line.linestring.len();
    let mut pts = copy_points(&line.linestring);
    let mut arcs = measure_arcs(&line.linestring);
    let mut marks: Vec<bool> = Vec::new();
    let mut i: usize = 0;
    while i < n
        invariant
            n == line.linestring@.len(),
            i <= n,
            marks@ == Seq::new(i as nat, |idx: int| idx == 0 || idx == n - 1),
        decreases n - i,
    {
        marks.push(i == 0 || i == n - 1);
        assert(marks@ =~= Seq::new((i + 1) as nat, |idx: int| idx == 0 || idx == n - 1));
        i += 1;
    }
    let mut c: usize = 0;
    while c < crossings.len()
        invariant
            c <= crossings@.len(),
            marks@.len() == pts@.len(),
            arcs@.len() == pts@.len(),
            (pts@, marks@, arcs@) == cut_marks(*line, crossings@, include_kinds@, c as nat),
        decreases crossings@.len() - c,
    {
        if is_wanted(&crossings[c], include_kinds) && crossing_on_line(&crossings[c], line) {
            mark_place(&mut pts, &mut marks, &mut arcs, crossings[c].point);
        }
        c += 1;
    }
    (pts, marks, arcs)
}

/// The pieces into which a line of two points or more is cut at crossings lead from its first
/// point to its last, each from where the one before it ends.
pub proof fn lemma_crossings_lead_along(
    line: KeyedLineString<RoadID>,
    crossings: Seq<Crossing>,
    kinds: Seq<String>,
)
    requires
        line.linestring@.len() >= 2,
    ensures
        ({
            let pieces = pieces_of(line, crossings, kinds);
            &&& pieces.len() > 0
            &&& pieces[0][0] == line.linestring@[0]
            &&& pieces.last().last() == line.linestring@.last()
            &&& forall|k: int|
                0 <= k < pieces.len() - 1 ==> (#[trigger] pieces[k]).last() == pieces[k + 1][0]
        }),
{
    let (pts, marks, arcs) = cut_marks(line, crossings, kinds, crossings.len());
    lemma_cut_marks(line, crossings, kinds, crossings.len());
    lemma_pieces_chain(pts, marks, pts.len());
    lemma_last_mark(marks, pts.len() - 1);
}

/// A piece of a severance between two crossings, and its length in centimetres along the
/// severance.
#[derive(Debug)]
pub struct Segment {
    pub linestring: Vec<Pt>,
    pub length: u64,
}

/// The polylines of the segments.
pub open spec fn shapes(segments: Seq<Segment>) -> Seq<Seq<Pt>> {
    Seq::new(segments.len(), |k: int| segments[k].linestring@)
}

/// The lengths of the segments.
pub open spec fn sizes(segments: Seq<Segment>) -> Seq<u64> {
    Seq::new(segments.len(), |k: int| segments[k].length)
}

/// The segments are the given pieces, each with its length.
pub open spec fn measured(pieces: Seq<Seq<Pt>>, lengths: Seq<u64>, segments: Seq<Segment>) -> bool {
    shapes(segments) == pieces && sizes(segments) == lengths
}

/// There are as many lengths as pieces.
pub proof fn lemma_lengths_match(line: Seq<Pt>, marks: Seq<bool>, arcs: Seq<u64>, n: nat)
    ensures
        lengths_upto(arcs, marks, n).len() == pieces_upto(line, marks, n).len(),
    decreases n,
{
    if n > 0 {
        lemma_lengths_match(line, marks, arcs, (n - 1) as nat);
    }
}

/// Cuts a line at its marked points, and hands out the pieces, each with its length along the
/// line, behind those in `out`.
fn split_line(line: &Vec<Pt>, marks: &Vec<bool>, arcs: &Vec<u64>, out: &mut Vec<Segment>)
    requires
        marks@.len() == line@.len(),
        arcs@.len() == line@.len(),
    ensures
        shapes(final(out)@) == shapes(old(out)@) + pieces_upto(line@, marks@, line@.len()),
        sizes(final(out)@) == sizes(old(out)@) + lengths_upto(arcs@, marks@, line@.len()),
{
    let n = line.len();
    let mut start: usize = 0;
    let mut idx: usize = 0;
    assert(shapes(out@) + pieces_upto(line@, marks@, 0) =~= shapes(out@));
    assert(sizes(out@) + lengths_upto(arcs@, marks@, 0) =~= sizes(out@));
    while idx < n
        invariant
            n == line@.len(),
            marks@.len() == n,
            arcs@.len() == n,
            idx <= n,
            idx == 0 ==> start == 0,
            idx > 0 ==> start == last_mark(marks@, idx - 1),
            shapes(out@) == shapes(old(out)@) + pieces_upto(line@, marks@, idx as nat),
            sizes(out@) == sizes(old(out)@) + lengths_upto(arcs@, marks@, idx as nat),
        decreases n - idx,
    {
        if idx > 0 && marks[idx] {
            proof {
                lemma_last_mark(marks@, idx - 1);
            }
            let mut piece: Vec<Pt> = Vec::new();
            let mut j: usize = start;
            while j <= idx
                invariant
                    start <= j <= idx + 1,
                    idx < n,
                    n == line@.len(),
                    piece@ == line@.subrange(start as int, j as int),
                decreases idx + 1 - j,
            {
                piece.push(line[j]);
                assert(piece@ =~= line@.subrange(start as int, j + 1));
                j += 1;
            }
            let length = if arcs[start] <= arcs[idx] {
                arcs[idx] - arcs[start]
            } else {
                0
            };
            let ghost before_shapes = shapes(out@);
            let ghost before_sizes = sizes(out@);
            out.push(Segment { linestring: piece, length });
            assert(shapes(out@) =~= before_shapes.push(piece@));
            assert(sizes(out@) =~= before_sizes.push(length));
            start = idx;
        }
        idx += 1;
    }
}

/// The pieces into which the crossings cut a line.
pub open spec fn pieces_of(line: KeyedLineString<RoadID>, crossings: Seq<Crossing>, kinds: Seq<String>) -> Seq<
    Seq<Pt>,
> {
    let cut = cut_marks(line, crossings, kinds, crossings.len());
    pieces_upto(cut.0, cut.1, cut.0.len())
}

/// The lengths of the pieces into which the crossings cut a line, measured along the line.
pub open spec fn lengths_of(line: KeyedLineString<RoadID>, crossings: Seq<Crossing>, kinds: Seq<String>) -> Seq<
    u64,
> {
    let cut = cut_marks(line, crossings, kinds, crossings.len());
    lengths_upto(cut.2, cut.1, cut.0.len())
}

/// What the lines are cut into: the pieces of the first `n` lines, line after line.
pub open spec fn all_pieces(
    lines: Seq<KeyedLineString<RoadID>>,
    crossings: Seq<Crossing>,
    kinds: Seq<String>,
    n: nat,
) -> Seq<Seq<Pt>>
    decreases n,
{
    if n == 0 {
        Seq::empty()
    } else {
        all_pieces(lines, crossings, kinds, (n - 1) as nat) + pieces_of(lines[n - 1], crossings, kinds)
    }
}

/// The lengths of what the lines are cut into, line after line.
pub open spec fn all_lengths(
    lines: Seq<KeyedLineString<RoadID>>,
    crossings: Seq<Crossing>,
    kinds: Seq<String>,
    n: nat,
) -> Seq<u64>
    decreases n,
{
    if n == 0 {
        Seq::empty()
    } else {
        all_lengths(lines, crossings, kinds, (n - 1) as nat) + lengths_of(lines[n - 1], crossings, kinds)
    }
}

/// Cuts each line at the place nearest to every crossing that is asked for and lies on one of
/// the roads of the line, and measures each piece along the line. A line without such a
/// crossing stays in one piece; a line of fewer than two points has no place for a crossing,
/// and no piece.
pub fn split_by_crossings(
    input: &Vec<KeyedLineString<RoadID>>,
    crossings: &Vec<Crossing>,
    include_kinds: &Vec<String>,
) -> (output: Vec<Segment>)
    ensures
        measured(
            all_pieces(input@, crossings@, include_kinds@, input@.len()),
            all_lengths(input@, crossings@, include_kinds@, input@.len()),
            output@,
        ),
{
    let mut output: Vec<Segment> = Vec::new();
    let mut i: usize = 0;
    assert(shapes(output@) =~= Seq::<Seq<Pt>>::empty());
    assert(sizes(output@) =~= Seq::<u64>::empty());
    while i < input.len()
        invariant
            i <= input@.len(),
            measured(
                all_pieces(input@, crossings@, include_kinds@, i as nat),
                all_lengths(input@, crossings@, include_kinds@, i as nat),
                output@,
            ),
        decreases input@.len() - i,
    {
        let (pts, marks, arcs) = mark_cuts(&input[i], crossings, include_kinds);
        split_line(&pts, &marks, &arcs, &mut output);
        i += 1;
    }
    output
}

/// Where the distances along a line do not fall, they do not fall from any point to a later
/// one.
proof fn lemma_rising(arcs: Seq<u64>, i: int, j: int)
    requires
        forall|k: int| 0 <= k < arcs.len() - 1 ==> #[trigger] arcs[k] <= arcs[k + 1],
        0 <= i <= j < arcs.len(),
    ensures
        arcs[i] <= arcs[j],
    decreases j - i,
{
    if i < j {
        lemma_rising(arcs, i, j - 1);
        assert(arcs[j - 1] <= arcs[j - 1 + 1]);
    }
}

/// The lengths of the pieces found among the first points add up to the distance of the last
/// mark among them from the first point.
proof fn lemma_lengths_add_up(arcs: Seq<u64>, marks: Seq<bool>, n: nat)
    requires
        1 <= n <= arcs.len(),
        marks.len() == arcs.len(),
        forall|k: int| 0 <= k < arcs.len() - 1 ==> #[trigger] arcs[k] <= arcs[k + 1],
    ensures
        sum_of(lengths_upto(arcs, marks, n)) == arcs[last_mark(marks, n - 1)] - arcs[0],
    decreases n,
{
    let idx = n - 1;
    lemma_last_mark(marks, idx);
    if n == 1 {
        assert(lengths_upto(arcs, marks, 0).len() == 0);
        assert(lengths_upto(arcs, marks, 1) =~= Seq::<u64>::empty());
    } else {
        lemma_lengths_add_up(arcs, marks, (n - 1) as nat);
        lemma_last_mark(marks, idx - 1);
        if marks[idx] {
            let from = last_mark(marks, idx - 1);
            lemma_rising(arcs, from, idx);
            lemma_rising(arcs, 0, from);
            assert(lengths_upto(arcs, marks, n).drop_last() =~= lengths_upto(
                arcs,
                marks,
                (n - 1) as nat,
            ));
        }
    }
}

/// The pieces into which a line is cut at crossings are as long together as the line, each
/// measured along the line.
pub proof fn lemma_crossings_keep_length(
    line: KeyedLineString<RoadID>,
    crossings: Seq<Crossing>,
    kinds: Seq<String>,
)
    ensures
        sum_of(lengths_of(line, crossings, kinds)) == clamp_u64(line_length(line.linestring@)),
{
    let (pts, marks, arcs) = cut_marks(line, crossings, kinds, crossings.len());
    lemma_cut_marks(line, crossings, kinds, crossings.len());
    if pts.len() > 0 {
        lemma_lengths_add_up(arcs, marks, pts.len());
        lemma_last_mark(marks, pts.len() - 1);
    } else {
        assert(lengths_upto(arcs, marks, 0) =~= Seq::<u64>::empty());
        assert(line.linestring@.len() < 2);
    }
}

/// The pieces into which a line is cut lead from its first point to its last, each from
/// where the one before it ends.
pub proof fn lemma_pieces_chain(line: Seq<Pt>, marks: Seq<bool>, n: nat)
    requires
        1 <= n <= line.len(),
        marks.len() == line.len(),
    ensures
        ({
            let pieces = pieces_upto(line, marks, n);
            &&& forall|k: int| 0 <= k < pieces.len() ==> (#[trigger] pieces[k]).len() >= 2
            &&& pieces.len() > 0 ==> pieces[0][0] == line[0] && pieces.last().last() == line[last_mark(
                marks,
                n - 1,
            )]
            &&& pieces.len() == 0 ==> last_mark(marks, n - 1) == 0
            &&& forall|k: int|
                0 <= k < pieces.len() - 1 ==> (#[trigger] pieces[k]).last() == pieces[k + 1][0]
        }),
    decreases n,
{
    let idx = n - 1;
    lemma_last_mark(marks, idx);
    if n == 1 {
        assert(pieces_upto(line, marks, 1) =~= Seq::<Seq<Pt>>::empty());
    } else {
        lemma_pieces_chain(line, marks, (n - 1) as nat);
        lemma_last_mark(marks, idx - 1);
        let before = pieces_upto(line, marks, (n - 1) as nat);
        if marks[idx] {
            let from = last_mark(marks, idx - 1);
            let piece = line.subrange(from, idx + 1);
            let pieces = pieces_upto(line, marks, n);
            assert(pieces =~= before.push(piece));
            assert(piece[0] == line[from]);
            assert(piece.last() == line[idx]);
            assert forall|k: int| 0 <= k < pieces.len() - 1 implies (#[trigger] pieces[k]).last()
                == pieces[k + 1][0] by {
                if k < before.len() - 1 {
                    assert(pieces[k] == before[k] && pieces[k + 1] == before[k + 1]);
                } else {
                    assert(pieces[k] == before.last());
                }
            }
        }
    }
}

/// The lines are the severances of the graph, road by road: each line has the points of its
/// road, and the road as its one piece.
pub open spec fn severance_lines(g: Graph, lines: Seq<KeyedLineString<RoadID>>, n: nat) -> bool
    decreases n,
{
    if n == 0 {
        lines.len() == 0
    } else if g.roads@[n - 1].kind == RoadKind::Severance {
        &&& lines.len() > 0
        &&& lines.last().linestring@ == g.roads@[n - 1].linestring@
        &&& lines.last().ids@ == seq![(g.roads@[n - 1].id, true)]
        &&& lines.last().key == 0
        &&& severance_lines(g, lines.drop_last(), (n - 1) as nat)
    } else {
        severance_lines(g, lines, (n - 1) as nat)
    }
}

/// The distances between the crossings of the severances: the severances joined into lines,
/// and the pieces into which the crossings cut them.
#[derive(Debug)]
pub struct CrossingDistances {
    pub joined: Vec<KeyedLineString<RoadID>>,
    pub segments: Vec<Segment>,
}

/// Makes a line of each severance of the graph.
pub fn severances(g: &Graph) -> (lines: Vec<KeyedLineString<RoadID>>)
    requires
        g.wf(),
    ensures
        severance_lines(*g, lines@, g.roads@.len()),
        all_drawn(lines@),
{
    let mut lines: Vec<KeyedLineString<RoadID>> = Vec::new();
    let mut r: usize = 0;
    while r < g.roads.len()
        invariant
            g.wf(),
            r <= g.roads@.len(),
            severance_lines(*g, lines@, r as nat),
            all_drawn(lines@),
        decreases g.roads@.len() - r,
    {
        assert(g.road_wf(r as int));
        match g.roads[r].kind {
            RoadKind::Severance => {
                let mut ids: Vec<(RoadID, bool)> = Vec::new();
                ids.push((g.roads[r].id, true));
                assert(ids@ =~= seq![(g.roads@[r as int].id, true)]);
                let ghost before = lines@;
                lines.push(
                    KeyedLineString { linestring: copy_points(&g.roads[r].linestring), ids, key: 0 },
                );
                assert(lines@.drop_last() =~= before);
            },
            _ => {},
        }
        r += 1;
    }
    lines
}

/// What measuring the distances between crossings comes to: the severances are joined into
/// lines, the lines are cut at the crossings that are asked for, and each piece is measured.
pub open spec fn distances_of(map: MapModel, kinds: Seq<String>, found: CrossingDistances) -> bool {
    &&& exists|input: Vec<KeyedLineString<RoadID>>| #[trigger]
        severance_lines(map.graph, input@, map.graph.roads@.len()) && collapsed(input, found.joined)
    &&& measured(
        all_pieces(found.joined@, map.crossings@, kinds, found.joined@.len()),
        all_lengths(found.joined@, map.crossings@, kinds, found.joined@.len()),
        found.segments@,
    )
}

/// Measures how far apart the crossings of the severances are. The severances are joined end
/// to end into as few lines as possible; each line is cut at the place on it that is nearest
/// to each crossing on one of its roads whose `crossing` tag is one of `include_kinds` (a
/// crossing without the tag counts as `unknown`); and each piece comes back with its length.
pub fn get_crossing_distances(map: &MapModel, include_kinds: &Vec<String>) -> (found: CrossingDistances)
    requires
        map.wf(),
    ensures
        distances_of(*map, include_kinds@, found),
{
    let input = severances(&map.graph);
    let ghost lines = input;
    let joined = collapse_degree_2(input);
    let segments = split_by_crossings(&joined, &map.crossings, include_kinds);
    let found = CrossingDistances { joined, segments };
    proof {
        assert(severance_lines(map.graph, lines@, map.graph.roads@.len()) && collapsed(
            lines,
            found.joined,
        ));
    }
    found
}

/// A straight line from one point to another.
#[derive(Clone, Copy, Debug, PartialEq, Eq, Structural)]
pub struct Line {
    pub start: Pt,
    pub end: Pt,
}

/// How far to go along one axis to get `dist` away in the direction of a vector of length
/// `len` whose part along that axis is `part`, rounded towards nothing.
pub open spec fn away(part: int, len: int, dist: int) -> int {
    if len == 0 {
        0
    } else if part >= 0 {
        dist * part / len
    } else {
        -(dist * (-part) / len)
    }
}

/// The point `dist` away from `pt` in the direction of the vector `(dx, dy)` of length `len`.
/// A vector without length points along the first axis.
pub open spec fn projected_away(pt: Pt, dx: int, dy: int, len: int, dist: int) -> Pt {
    if len == 0 {
        Pt { x: crate::mercator::clamp_i32(pt.x + dist), y: pt.y }
    } else {
        Pt {
            x: crate::mercator::clamp_i32(pt.x + away(dx, len, dist)),
            y: crate::mercator::clamp_i32(pt.y + away(dy, len, dist)),
        }
    }
}

/// The line across the segment from `a` to `b` at `a`: from `dist` to the one side to `dist`
/// to the other, at right angles to the segment.
pub open spec fn across(a: Pt, b: Pt, dist: int) -> Line {
    let dx = b.x - a.x;
    let dy = b.y - a.y;
    let len = segment_length(a, b) as int;
    if len == 0 {
        Line {
            start: Pt { x: a.x, y: crate::mercator::clamp_i32(a.y - dist) },
            end: Pt { x: a.x, y: crate::mercator::clamp_i32(a.y + dist) },
        }
    } else {
        Line {
            start: projected_away(a, dy, -dx, len, dist),
            end: projected_away(a, -dy, dx, len, dist),
        }
    }
}

fn away_exec(part: i64, len: u64, dist: u32) -> (r: i128)
    requires
        -0x1_0000_0000 < part < 0x1_0000_0000,
        0 < len < 0x2_0000_0000,
    ensures
        r == away(part as int, len as int, dist as int),
        -0x1_0000_0000_0000_0000 <= r <= 0x1_0000_0000_0000_0000,
{
    let size: u128 = (if part >= 0 {
        part
    } else {
        -part
    }) as u128;
    assert(dist * size <= 0xffff_ffff * 0x1_0000_0000) by (nonlinear_arith)
        requires
            0 <= dist <= 0xffff_ffff,
            0 <= size <= 0x1_0000_0000,
    ;
    let q: u128 = dist as u128 * size / (len as u128);
    assert(q <= dist * size) by (nonlinear_arith)
        requires
            q == (dist * size) / (len as int),
            len >= 1,
            dist * size >= 0,
    ;
    if part >= 0 {
        q as i128
    } else {
        -(q as i128)
    }
}

fn clamp_pt(v: i128) -> (r: i32)
    ensures
        r == crate::mercator::clamp_i32(v as int),
{
    if v < i32::MIN as i128 {
        i32::MIN
    } else if v > i32::MAX as i128 {
        i32::MAX
    } else {
        v as i32
    }
}

/// The point `dist_away` from `pt` in the direction of the vector `(dx, dy)` of length `len`.
pub fn project_away(pt: Pt, dx: i64, dy: i64, len: u64, dist_away: u32) -> (p: Pt)
    requires
        -0x1_0000_0000 < dx < 0x1_0000_0000,
        -0x1_0000_0000 < dy < 0x1_0000_0000,
        len < 0x2_0000_0000,
    ensures
        p == projected_away(pt, dx as int, dy as int, len as int, dist_away as int),
{
    if len == 0 {
        Pt { x: clamp_pt(pt.x as i128 + dist_away as i128), y: pt.y }
    } else {
        Pt {
            x: clamp_pt(pt.x as i128 + away_exec(dx, len, dist_away)),
            y: clamp_pt(pt.y as i128 + away_exec(dy, len, dist_away)),
        }
    }
}

/// The lines across a polyline: the polyline is sampled every `walk_every`, and at each sample
/// but the last a line is laid across it, from `project_away` to the one side to
/// `project_away` to the other.
pub open spec fn offsets(line: Seq<Pt>, walk_every: nat, project_away: int) -> Seq<Line> {
    let pts = samples(line, walk_every, line.len());
    Seq::new(
        if pts.len() >= 1 {
            (pts.len() - 1) as nat
        } else {
            0
        },
        |i: int| across(pts[i], pts[i + 1], project_away),
    )
}

/// Lays lines across a polyline at which somebody might want to get to the other side: one
/// every `walk_every` centimetres, each reaching `project_away` centimetres to either side.
pub fn make_perpendicular_offsets(linestring: &Vec<Pt>, walk_every: u32, project_away: u32) -> (output: Vec<
    Line,
>)
    requires
        walk_every > 0,
    ensures
        output@ == offsets(linestring@, walk_every as nat, project_away as int),
{
    let pts = densify(linestring, walk_every);
    let mut output: Vec<Line> = Vec::new();
    if pts.len() == 0 {
        assert(output@ =~= offsets(linestring@, walk_every as nat, project_away as int));
        return output;
    }
    let mut i: usize = 0;
    let last = pts.len() - 1;
    while i < last
        invariant
            pts@.len() >= 1,
            last == pts@.len() - 1,
            i + 1 <= pts@.len(),
            output@.len() == i,
            forall|k: int|
                0 <= k < i ==> #[trigger] output@[k] == across(
                    pts@[k],
                    pts@[k + 1],
                    project_away as int,
                ),
        decreases pts@.len() - i,
    {
        let a = pts[i];
        let b = pts[i + 1];
        let dx: i64 = b.x as i64 - a.x as i64;
        let dy: i64 = b.y as i64 - a.y as i64;
        let len = segment_len(a, b);
        let line = if len == 0 {
            Line {
                start: Pt { x: a.x, y: clamp_pt(a.y as i128 - project_away as i128) },
                end: Pt { x: a.x, y: clamp_pt(a.y as i128 + project_away as i128) },
            }
        } else {
            Line {
                start: self::project_away(a, dy, -dx, len, project_away),
                end: self::project_away(a, -dy, dx, len, project_away),
            }
        };
        output.push(line);
        i += 1;
    }
    assert(output@ =~= offsets(linestring@, walk_every as nat, project_away as int));
    output
}

/// How often a line is laid across a severance, in centimetres.
pub const WALK_EVERY: u32 = 2500;

/// How far a line across a severance reaches to either side, in centimetres.
pub const PROJECT_AWAY: u32 = 1500;

/// The lines laid across the severances among the first `n` roads.
pub open spec fn requests_of(g: Graph, n: nat) -> Seq<Line>
    decreases n,
{
    if n == 0 {
        Seq::empty()
    } else {
        let before = requests_of(g, (n - 1) as nat);
        if g.roads@[n - 1].kind == RoadKind::Severance {
            before + offsets(g.roads@[n - 1].linestring@, WALK_EVERY as nat, PROJECT_AWAY as int)
        } else {
            before
        }
    }
}

/// Lays lines across every severance of the graph.
pub fn along_severances(g: &Graph) -> (requests: Vec<Line>)
    ensures
        requests@ == requests_of(*g, g.roads@.len()),
{
    let mut requests: Vec<Line> = Vec::new();
    let mut r: usize = 0;
    while r < g.roads.len()
        invariant
            r <= g.roads@.len(),
            requests@ == requests_of(*g, r as nat),
        decreases g.roads@.len() - r,
    {
        match g.roads[r].kind {
            RoadKind::Severance => {
                let mut lines = make_perpendicular_offsets(
                    &g.roads[r].linestring,
                    WALK_EVERY,
                    PROJECT_AWAY,
                );
                requests.append(&mut lines);
            },
            _ => {},
        }
        r += 1;
    }
    requests
}

/// How many thousandths of the straight distance the route is long; `None` where the straight
/// distance is nothing.
pub open spec fn detour(route_length: u64, direct_length: u64) -> Option<u64> {
    if direct_length == 0 {
        None
    } else {
        Some(clamp_u64((route_length * 1000 / (direct_length as int)) as nat))
    }
}

/// How many thousandths of the straight distance the route is long.
pub fn detour_score(route_length: u64, direct_length: u64) -> (score: Option<u64>)
    ensures
        score == detour(route_length, direct_length),
{
    if direct_length == 0 {
        return None;
    }
    let q: u128 = route_length as u128 * 1000 / (direct_length as u128);
    if q > u64::MAX as u128 {
        Some(u64::MAX)
    } else {
        Some(q as u64)
    }
}

/// One line across a severance for which there is a way round: the place of the line among
/// all lines that were tried, the way round, and its score.
#[derive(Debug)]
pub struct Sample {
    pub request: usize,
    pub route: RouteSummary,
    pub score: Option<u64>,
}

/// The ways round the severances, and the greatest score among them.
#[derive(Debug)]
pub struct Detours {
    pub samples: Vec<Sample>,
    pub max_score: u64,
}

/// The sample is the answer to the request that it names.
pub open spec fn sample_ok(map: MapModel, requests: Seq<Line>, settings: Settings, sample: Sample) -> bool {
    &&& sample.request < requests.len()
    &&& routed(
        map,
        requests[sample.request as int].start,
        requests[sample.request as int].end,
        settings,
        Ok(sample.route),
    )
    &&& sample.score == detour(sample.route.route_length, sample.route.direct_length)
}

/// No way leads round the severance at the request `i`.
pub open spec fn no_way_round(map: MapModel, requests: Seq<Line>, settings: Settings, i: int) -> bool {
    exists|e: Error| #[trigger]
        routed(map, requests[i].start, requests[i].end, settings, Err(e))
}

/// The samples answer the first `n` requests: one sample, in the order of the requests, for
/// each request for which there is a way round, and none for the others; and the greatest
/// score is the greatest among the samples, or nothing where no sample has a score.
pub open spec fn detours_of(map: MapModel, settings: Settings, n: nat, found: Detours) -> bool {
    let requests = requests_of(map.graph, map.graph.roads@.len());
    &&& forall|k: int|
        0 <= k < found.samples@.len() ==> sample_ok(map, requests, settings, #[trigger] found.samples@[k])
            && found.samples@[k].request < n
    &&& forall|k: int, m: int|
        0 <= k < m < found.samples@.len() ==> (#[trigger] found.samples@[k]).request < (
        #[trigger] found.samples@[m]).request
    &&& forall|i: int|
        0 <= i < n ==> (exists|k: int|
            0 <= k < found.samples@.len() && (#[trigger] found.samples@[k]).request == i)
            || #[trigger] no_way_round(map, requests, settings, i)
    &&& forall|k: int|
        0 <= k < found.samples@.len() ==> ((#[trigger] found.samples@[k]).score matches Some(s)
            ==> s <= found.max_score)
    &&& found.max_score == 0 || exists|k: int|
        0 <= k < found.samples@.len() && (#[trigger] found.samples@[k]).score == Some(
            found.max_score,
        )
}

/// Scores the detours that the severances force: lays a line across each severance every 25
/// metres, reaching 15 metres to either side, looks for a route from the one end of each line
/// to the other, and sets the length of the route against the straight distance. A line for
/// which no route is found is left out.
pub fn calculate(map: &mut MapModel, settings: Settings) -> (found: Detours)
    requires
        old(map).wf(),
        settings.base_speed_mph > 0,
    ensures
        final(map).wf(),
        final(map).prepared(*old(map), settings),
        detours_of(
            *final(map),
            settings,
            requests_of(final(map).graph, final(map).graph.roads@.len()).len(),
            found,
        ),
{
    let walker = map.prepare_profile(settings);
    let ghost ready = *map;
    let requests = along_severances(&map.graph);
    let mut found = Detours { samples: Vec::new(), max_score: 0 };
    let mut i: usize = 0;
    while i < requests.len()
        invariant
            *map == ready,
            ready.wf(),
            settings.base_speed_mph > 0,
            ready.settings_of(settings.walker_of()) == settings,
            requests@ == requests_of(ready.graph, ready.graph.roads@.len()),
            i <= requests@.len(),
            detours_of(ready, settings, i as nat, found),
        decreases requests@.len() - i,
    {
        let ghost before = found;
        let line = requests[i];
        match do_route(map, line.start, line.end, settings) {
            Ok(route) => {
                let score = detour_score(route.route_length, route.direct_length);
                match score {
                    Some(s) => {
                        if s > found.max_score {
                            found.max_score = s;
                        }
                    },
                    None => {},
                }
                found.samples.push(Sample { request: i, route, score });
                proof {
                    let n = before.samples@.len() as int;
                    assert forall|k: int| 0 <= k < n implies found.samples@[k] == before.samples@[k] by {}
                    assert(found.samples@[n].request == i);
                    assert forall|q: int| 0 <= q < i + 1 implies (exists|k: int|
                        0 <= k < found.samples@.len() && (#[trigger] found.samples@[k]).request == q)
                        || #[trigger] no_way_round(ready, requests@, settings, q) by {
                        if q < i {
                            if exists|k: int|
                                0 <= k < before.samples@.len() && (
                                #[trigger] before.samples@[k]).request == q {
                                let k = choose|k: int|
                                    0 <= k < before.samples@.len() && (
                                    #[trigger] before.samples@[k]).request == q;
                                assert(found.samples@[k].request == q);
                            }
                        }
                    }
                    if found.max_score != 0 {
                        if found.max_score == before.max_score {
                            let k = choose|k: int|
                                0 <= k < before.samples@.len() && (
                                #[trigger] before.samples@[k]).score == Some(before.max_score);
                            assert(found.samples@[k].score == Some(found.max_score));
                        } else {
                            assert(found.samples@[n].score == Some(found.max_score));
                        }
                    }
                }
            },
            Err(e) => {
                proof {
                    assert(no_way_round(ready, requests@, settings, i as int));
                }
            },
        }
        i += 1;
    }
    found
}

impl MapModel {
    /// Scores the detours that the severances force on somebody who walks as people do in the
    /// United Kingdom.
    pub fn score_detours(&mut self) -> (found: Detours)
        requires
            old(self).wf(),
        ensures
            final(self).wf(),
            final(self).prepared(*old(self), crate::create::uk_settings()),
            detours_of(
                *final(self),
                crate::create::uk_settings(),
                requests_of(final(self).graph, final(self).graph.roads@.len()).len(),
                found,
            ),
    {
        calculate(self, Settings::uk())
    }

    /// Measures how far apart the crossings of the kinds `include_kinds` are along the
    /// severances.
    pub fn get_crossing_distances(&self, include_kinds: Vec<String>) -> (found: CrossingDistances)
        requires
            self.wf(),
        ensures
            distances_of(*self, include_kinds@, found),
    {
        get_crossing_distances(self, &include_kinds)
    }
}

} // verus!
