//! Joining polylines that meet end to end into longer ones.

use crate::geometry::Pt;
use vstd::prelude::*;

verus! {

/// A polyline with the identifiers of the pieces that it is made of, in their order along the
/// line, and a key. Only lines with the same key are joined.
#[derive(Debug)]
pub struct KeyedLineString<ID> {
    pub linestring: Vec<Pt>,
    /// Each piece with its direction: true if the piece runs along the line, false if it runs
    /// against it.
    pub ids: Vec<(ID, bool)>,
    pub key: u64,
}

/// An end of a line: a point, held to the centimetre, and the key of the line.
#[derive(Clone, Copy, Debug, PartialEq, Eq, Structural, Hash)]
pub struct HashedPoint(pub isize, pub isize, pub u64);

impl HashedPoint {
    /// The end at `pt` of a line with the key `key`.
    pub fn new(pt: Pt, key: u64) -> (p: HashedPoint)
        ensures
            p == HashedPoint(pt.x as isize, pt.y as isize, key),
    {
        HashedPoint(pt.x as isize, pt.y as isize, key)
    }
}

/// The end at `pt` of a line with the key `key`.
pub open spec fn end_at(pt: Pt, key: u64) -> HashedPoint {
    HashedPoint(pt.x as isize, pt.y as isize, key)
}

impl<ID> KeyedLineString<ID> {
    /// The first end of the line.
    pub open spec fn first_end(self) -> HashedPoint {
        end_at(self.linestring@[0], self.key)
    }

    /// The last end of the line.
    pub open spec fn last_end(self) -> HashedPoint {
        end_at(self.linestring@.last(), self.key)
    }

    /// The first end of the line.
    pub fn first_pt(&self) -> (p: HashedPoint)
        requires
            self.linestring@.len() > 0,
        ensures
            p == self.first_end(),
    {
        HashedPoint::new(self.linestring[0], self.key)
    }

    /// The last end of the line.
    pub fn last_pt(&self) -> (p: HashedPoint)
        requires
            self.linestring@.len() > 0,
        ensures
            p == self.last_end(),
    {
        HashedPoint::new(self.linestring[self.linestring.len() - 1], self.key)
    }

    /// The end of the line that is not `pt`: the last end where `pt` is the first, the first
    /// otherwise.
    pub fn other_endpt(&self, pt: HashedPoint) -> (p: HashedPoint)
        requires
            self.linestring@.len() > 0,
        ensures
            p == if self.first_end() == pt {
                self.last_end()
            } else {
                self.first_end()
            },
    {
        if self.first_pt() == pt {
            self.last_pt()
        } else {
            self.first_pt()
        }
    }
}

/// The pieces with each direction turned round.
pub open spec fn flipped<ID>(ids: Seq<(ID, bool)>) -> Seq<(ID, bool)> {
    Seq::new(ids.len(), |i: int| (ids[i].0, !ids[i].1))
}

/// Turns the direction of each piece round.
pub fn flip_direction<ID>(ids: &mut Vec<(ID, bool)>)
    ensures
        final(ids)@ == flipped(old(ids)@),
{
    let mut i: usize = 0;
    while i < ids.len()
        invariant
            i <= ids@.len(),
            ids@.len() == old(ids)@.len(),
            forall|j: int| 0 <= j < i ==> #[trigger] ids@[j] == (old(ids)@[j].0, !old(ids)@[j].1),
            forall|j: int| i <= j < ids@.len() ==> #[trigger] ids@[j] == old(ids)@[j],
        decreases ids@.len() - i,
    {
        ids[i].1 = !ids[i].1;
        i += 1;
    }
    assert(ids@ =~= flipped(old(ids)@));
}

/// The indices with `now` in place of each `was`.
pub open spec fn replaced(indices: Seq<usize>, was: usize, now: usize) -> Seq<usize> {
    Seq::new(
        indices.len(),
        |i: int|
            if indices[i] == was {
                now
            } else {
                indices[i]
            },
    )
}

/// Puts `now` in place of each `was` among the indices.
pub fn replace(indices: &mut Vec<usize>, was: usize, now: usize)
    ensures
        final(indices)@ == replaced(old(indices)@, was, now),
{
    let mut i: usize = 0;
    while i < indices.len()
        invariant
            i <= indices@.len(),
            indices@.len() == old(indices)@.len(),
            forall|j: int|
                0 <= j < i ==> #[trigger] indices@[j] == replaced(old(indices)@, was, now)[j],
            forall|j: int| i <= j < indices@.len() ==> #[trigger] indices@[j] == old(indices)@[j],
        decreases indices@.len() - i,
    {
        if indices[i] == was {
            indices[i] = now;
        }
        i += 1;
    }
    assert(indices@ =~= replaced(old(indices)@, was, now));
}

/// Hands out the items of a sequence from the last to the first.
fn reversed<T>(items: Vec<T>) -> (back: Vec<T>)
    ensures
        back@ == items@.reverse(),
{
    let mut items = items;
    let mut back: Vec<T> = Vec::new();
    let ghost all = items@;
    while items.len() > 0
        invariant
            items@ == all.take(items@.len() as int),
            items@.len() <= all.len(),
            back@ == all.skip(items@.len() as int).reverse(),
        decreases items@.len(),
    {
        let ghost n = items@.len() as int;
        match items.pop() {
            Some(item) => {
                back.push(item);
                assert(back@ =~= all.skip(n - 1).reverse());
                assert(items@ =~= all.take(n - 1));
            },
            None => {},
        }
    }
    assert(all.skip(0) =~= all);
    back
}

/// Copies the points of `from` behind those of `to`.
fn extend_points(to: &mut Vec<Pt>, from: &Vec<Pt>)
    ensures
        final(to)@ == old(to)@ + from@,
{
    let mut i: usize = 0;
    while i < from.len()
        invariant
            i <= from@.len(),
            to@ == old(to)@ + from@.take(i as int),
        decreases from@.len() - i,
    {
        to.push(from[i]);
        assert(to@ =~= old(to)@ + from@.take(i + 1));
        i += 1;
    }
    assert(from@.take(i as int) =~= from@);
}

/// The two lines have an end in common.
pub open spec fn touching<ID>(a: KeyedLineString<ID>, b: KeyedLineString<ID>) -> bool {
    ||| a.first_end() == b.first_end()
    ||| a.first_end() == b.last_end()
    ||| a.last_end() == b.first_end()
    ||| a.last_end() == b.last_end()
}

/// The points of two lines joined at a common end: the first line is walked towards the common
/// end and the second away from it, and the common point is taken once.
pub open spec fn joined_points<ID>(a: KeyedLineString<ID>, b: KeyedLineString<ID>) -> Seq<Pt> {
    if a.first_end() == b.first_end() {
        a.linestring@.reverse().drop_last() + b.linestring@
    } else if a.first_end() == b.last_end() {
        b.linestring@.drop_last() + a.linestring@
    } else if a.last_end() == b.first_end() {
        a.linestring@.drop_last() + b.linestring@
    } else {
        a.linestring@.drop_last() + b.linestring@.reverse()
    }
}

/// The pieces of two lines joined at a common end, in the order in which the joined line runs
/// through them: the pieces of a line that is walked backwards come in reverse, each turned
/// round.
pub open spec fn joined_ids<ID>(a: KeyedLineString<ID>, b: KeyedLineString<ID>) -> Seq<(ID, bool)> {
    if a.first_end() == b.first_end() {
        flipped(a.ids@.reverse()) + b.ids@
    } else if a.first_end() == b.last_end() {
        b.ids@ + a.ids@
    } else if a.last_end() == b.first_end() {
        a.ids@ + b.ids@
    } else {
        a.ids@ + flipped(b.ids@.reverse())
    }
}

/// Joins two lines that have an end in common into one.
pub fn join_lines<ID>(line1: KeyedLineString<ID>, line2: KeyedLineString<ID>) -> (joined: KeyedLineString<
    ID,
>)
    requires
        line1.linestring@.len() > 0,
        line2.linestring@.len() > 0,
        touching(line1, line2),
    ensures
        joined.linestring@ == joined_points(line1, line2),
        joined.ids@ == joined_ids(line1, line2),
        joined.key == line1.key,
{
    let (pt1, pt2) = (line1.first_pt(), line1.last_pt());
    let (pt3, pt4) = (line2.first_pt(), line2.last_pt());
    let key = line1.key;
    let KeyedLineString { linestring: points1, ids: ids1, key: _ } = line1;
    let KeyedLineString { linestring: points2, ids: ids2, key: _ } = line2;
    let mut points1 = points1;
    let mut points2 = points2;
    let mut ids1 = ids1;
    let mut ids2 = ids2;
    if pt1 == pt3 {
        let mut points = reversed(points1);
        points.pop();
        extend_points(&mut points, &points2);
        let mut ids = reversed(ids1);
        flip_direction(&mut ids);
        ids.append(&mut ids2);
        KeyedLineString { linestring: points, ids, key }
    } else if pt1 == pt4 {
        points2.pop();
        extend_points(&mut points2, &points1);
        ids2.append(&mut ids1);
        KeyedLineString { linestring: points2, ids: ids2, key }
    } else if pt2 == pt3 {
        points1.pop();
        extend_points(&mut points1, &points2);
        ids1.append(&mut ids2);
        KeyedLineString { linestring: points1, ids: ids1, key }
    } else {
        let back = reversed(points2);
        points1.pop();
        extend_points(&mut points1, &back);
        let mut ids = reversed(ids2);
        flip_direction(&mut ids);
        ids1.append(&mut ids);
        KeyedLineString { linestring: points1, ids: ids1, key }
    }
}

/// The points of a piece in the direction in which a line runs through it.
pub open spec fn piece<ID>(geom: Map<ID, Seq<Pt>>, id: (ID, bool)) -> Seq<Pt> {
    if id.1 {
        geom[id.0]
    } else {
        geom[id.0].reverse()
    }
}

/// The pieces follow one another: each has a point at least, and each starts where the one
/// before it ends.
pub open spec fn chained<ID>(geom: Map<ID, Seq<Pt>>, ids: Seq<(ID, bool)>) -> bool {
    &&& forall|k: int| 0 <= k < ids.len() ==> (#[trigger] piece(geom, ids[k])).len() > 0
    &&& forall|k: int|
        0 <= k < ids.len() - 1 ==> (#[trigger] piece(geom, ids[k])).last() == piece(geom, ids[k + 1])[0]
}

/// The points along the first `n` pieces, the point at which two pieces meet taken once.
pub open spec fn walk<ID>(geom: Map<ID, Seq<Pt>>, ids: Seq<(ID, bool)>, n: nat) -> Seq<Pt>
    decreases n,
{
    if n == 0 {
        Seq::empty()
    } else if n == 1 {
        piece(geom, ids[0])
    } else {
        walk(geom, ids, (n - 1) as nat) + piece(geom, ids[n - 1]).skip(1)
    }
}

/// The line is a walk through its pieces: they follow one another in the order and the
/// directions that the line gives, and the points of the line are the points along them.
pub open spec fn follows<ID>(line: KeyedLineString<ID>, geom: Map<ID, Seq<Pt>>) -> bool {
    &&& line.ids@.len() > 0
    &&& chained(geom, line.ids@)
    &&& line.linestring@ == walk(geom, line.ids@, line.ids@.len())
}

/// A walk starts where its first piece starts and ends where its last piece ends.
proof fn lemma_walk_ends<ID>(geom: Map<ID, Seq<Pt>>, ids: Seq<(ID, bool)>, n: nat)
    requires
        chained(geom, ids),
        1 <= n <= ids.len(),
    ensures
        walk(geom, ids, n).len() > 0,
        walk(geom, ids, n)[0] == piece(geom, ids[0])[0],
        walk(geom, ids, n).last() == piece(geom, ids[n - 1]).last(),
    decreases n,
{
    if n > 1 {
        lemma_walk_ends(geom, ids, (n - 1) as nat);
        let before = walk(geom, ids, (n - 1) as nat);
        let p = piece(geom, ids[n - 1]);
        assert(piece(geom, ids[n - 2]).last() == p[0]);
        if p.len() == 1 {
            assert(before + p.skip(1) =~= before);
        } else {
            assert((before + p.skip(1)).last() == p.last());
        }
    }
}

/// A walk through the first pieces does not depend on the pieces that come after them.
proof fn lemma_walk_prefix<ID>(geom: Map<ID, Seq<Pt>>, a: Seq<(ID, bool)>, b: Seq<(ID, bool)>, n: nat)
    requires
        n <= a.len(),
        n <= b.len(),
        forall|k: int| 0 <= k < n ==> a[k] == b[k],
    ensures
        walk(geom, a, n) == walk(geom, b, n),
    decreases n,
{
    if n > 1 {
        lemma_walk_prefix(geom, a, b, (n - 1) as nat);
    }
}

/// Two walks of which the second starts where the first ends make one walk: the points of the
/// first, without its last, and the points of the second.
proof fn lemma_walk_concat<ID>(geom: Map<ID, Seq<Pt>>, x: Seq<(ID, bool)>, y: Seq<(ID, bool)>, m: nat)
    requires
        chained(geom, x),
        chained(geom, y),
        x.len() > 0,
        1 <= m <= y.len(),
        piece(geom, x.last()).last() == piece(geom, y[0])[0],
    ensures
        walk(geom, x + y, x.len() + m) == walk(geom, x, x.len()).drop_last() + walk(geom, y, m),
    decreases m,
{
    let n = x.len();
    let wx = walk(geom, x, n);
    lemma_walk_ends(geom, x, n);
    lemma_walk_prefix(geom, x + y, x, n);
    if m == 1 {
        let p = piece(geom, y[0]);
        assert((x + y)[n as int] == y[0]);
        assert(walk(geom, x + y, n + 1) == wx + p.skip(1));
        assert(wx + p.skip(1) =~= wx.drop_last() + p);
    } else {
        lemma_walk_concat(geom, x, y, (m - 1) as nat);
        lemma_walk_ends(geom, y, (m - 1) as nat);
        let p = piece(geom, y[m - 1]);
        assert((x + y)[n + m - 1] == y[m - 1]);
        assert(walk(geom, x + y, n + m) == walk(geom, x + y, (n + m - 1) as nat) + p.skip(1));
        assert(walk(geom, x + y, n + m) =~= wx.drop_last() + walk(geom, y, m));
    }
}

/// Pieces that follow one another still do so when two chains are put together of which the
/// second starts where the first ends.
proof fn lemma_chained_concat<ID>(geom: Map<ID, Seq<Pt>>, x: Seq<(ID, bool)>, y: Seq<(ID, bool)>)
    requires
        chained(geom, x),
        chained(geom, y),
        x.len() > 0,
        y.len() > 0,
        piece(geom, x.last()).last() == piece(geom, y[0])[0],
    ensures
        chained(geom, x + y),
{
    let z = x + y;
    assert forall|k: int| 0 <= k < z.len() implies (#[trigger] piece(geom, z[k])).len() > 0 by {
        if k < x.len() {
            assert(z[k] == x[k]);
        } else {
            assert(z[k] == y[k - x.len()]);
        }
    }
    assert forall|k: int| 0 <= k < z.len() - 1 implies (#[trigger] piece(geom, z[k])).last() == piece(
        geom,
        z[k + 1],
    )[0] by {
        if k < x.len() - 1 {
            assert(z[k] == x[k] && z[k + 1] == x[k + 1]);
        } else if k == x.len() - 1 {
            assert(z[k] == x.last() && z[k + 1] == y[0]);
        } else {
            assert(z[k] == y[k - x.len()] && z[k + 1] == y[k + 1 - x.len()]);
            assert(piece(geom, y[k - x.len()]).last() == piece(geom, y[k - x.len() + 1])[0]);
        }
    }
}

/// A piece that is turned round runs through its points backwards.
proof fn lemma_piece_flipped<ID>(geom: Map<ID, Seq<Pt>>, id: (ID, bool))
    ensures
        piece(geom, (id.0, !id.1)) =~= piece(geom, id).reverse(),
{
    assert(geom[id.0].reverse().reverse() =~= geom[id.0]);
}

/// Pieces that follow one another do so backwards too, each turned round.
proof fn lemma_reversed_chained<ID>(geom: Map<ID, Seq<Pt>>, x: Seq<(ID, bool)>)
    requires
        chained(geom, x),
    ensures
        chained(geom, flipped(x.reverse())),
        forall|k: int|
            0 <= k < x.len() ==> #[trigger] piece(geom, flipped(x.reverse())[k]) == piece(
                geom,
                x[x.len() - 1 - k],
            ).reverse(),
{
    let n = x.len() as int;
    let r = flipped(x.reverse());
    assert forall|k: int| 0 <= k < n implies #[trigger] piece(geom, r[k]) == piece(
        geom,
        x[n - 1 - k],
    ).reverse() by {
        lemma_piece_flipped(geom, x[n - 1 - k]);
    }
    assert forall|k: int| 0 <= k < r.len() implies (#[trigger] piece(geom, r[k])).len() > 0 by {
        assert(piece(geom, x[n - 1 - k]).len() > 0);
    }
    assert forall|k: int| 0 <= k < r.len() - 1 implies (#[trigger] piece(geom, r[k])).last() == piece(
        geom,
        r[k + 1],
    )[0] by {
        assert(piece(geom, x[n - 2 - k]).last() == piece(geom, x[n - 2 - k + 1])[0]);
        assert(piece(geom, x[n - 1 - k]).len() > 0);
        assert(piece(geom, x[n - 2 - k]).len() > 0);
    }
}

/// A walk that is walked backwards is the walk through its pieces in reverse, each turned
/// round.
#[verifier::rlimit(50)]
proof fn lemma_walk_reversed<ID>(geom: Map<ID, Seq<Pt>>, x: Seq<(ID, bool)>)
    requires
        chained(geom, x),
        x.len() > 0,
    ensures
        chained(geom, flipped(x.reverse())),
        walk(geom, flipped(x.reverse()), x.len()) == walk(geom, x, x.len()).reverse(),
    decreases x.len(),
{
    let n = x.len() as int;
    let r = flipped(x.reverse());
    lemma_reversed_chained(geom, x);
    if n == 1 {
        assert(walk(geom, r, 1) =~= walk(geom, x, 1).reverse());
    } else {
        let head = x.drop_last();
        assert(chained(geom, head)) by {
            assert forall|k: int| 0 <= k < head.len() implies (#[trigger] piece(geom, head[k])).len()
                > 0 by {
                assert(head[k] == x[k]);
            }
            assert forall|k: int| 0 <= k < head.len() - 1 implies (#[trigger] piece(
                geom,
                head[k],
            )).last() == piece(geom, head[k + 1])[0] by {
                assert(head[k] == x[k] && head[k + 1] == x[k + 1]);
                assert(piece(geom, x[k]).last() == piece(geom, x[k + 1])[0]);
            }
        }
        lemma_walk_reversed(geom, head);
        let rh = flipped(head.reverse());
        let one = seq![r[0]];
        assert(r =~= one + rh);
        assert(chained(geom, one)) by {
            assert(piece(geom, one[0]).len() > 0);
        }
        let p = piece(geom, x[n - 1]);
        let w = walk(geom, head, head.len());
        lemma_walk_ends(geom, head, head.len());
        lemma_walk_ends(geom, rh, rh.len());
        assert(piece(geom, x[n - 2]).last() == piece(geom, x[n - 2 + 1])[0]);
        assert(w.last() == p[0]);
        assert(piece(geom, one.last()).last() == piece(geom, rh[0])[0]) by {
            assert(rh[0] == r[1]);
            assert(piece(geom, r[0]).last() == piece(geom, r[1])[0]);
        }
        lemma_walk_concat(geom, one, rh, rh.len());
        lemma_walk_prefix(geom, x, head, head.len());
        assert(walk(geom, r, n as nat) == walk(geom, one, 1).drop_last() + w.reverse());
        assert(walk(geom, one, 1) =~= p.reverse());
        assert(walk(geom, x, n as nat) == w + p.skip(1));
        assert(p.reverse().drop_last() + w.reverse() =~= (w + p.skip(1)).reverse());
    }
}

/// The line joined of two walks that meet at an end is a walk again.
pub proof fn lemma_join_follows<ID>(
    a: KeyedLineString<ID>,
    b: KeyedLineString<ID>,
    joined: KeyedLineString<ID>,
    geom: Map<ID, Seq<Pt>>,
)
    requires
        follows(a, geom),
        follows(b, geom),
        touching(a, b),
        joined.linestring@ == joined_points(a, b),
        joined.ids@ == joined_ids(a, b),
    ensures
        follows(joined, geom),
{
    let x = a.ids@;
    let y = b.ids@;
    let wa = walk(geom, x, x.len());
    let wb = walk(geom, y, y.len());
    lemma_walk_ends(geom, x, x.len());
    lemma_walk_ends(geom, y, y.len());
    if a.first_end() == b.first_end() {
        let fx = flipped(x.reverse());
        lemma_walk_reversed(geom, x);
        lemma_walk_ends(geom, fx, fx.len());
        assert(wa[0] == wb[0]);
        assert(wa.reverse().last() == wa[0]);
        lemma_chained_concat(geom, fx, y);
        lemma_walk_concat(geom, fx, y, y.len());
    } else if a.first_end() == b.last_end() {
        assert(wa[0] == wb.last());
        lemma_chained_concat(geom, y, x);
        lemma_walk_concat(geom, y, x, x.len());
    } else if a.last_end() == b.first_end() {
        assert(wa.last() == wb[0]);
        lemma_chained_concat(geom, x, y);
        lemma_walk_concat(geom, x, y, y.len());
    } else {
        let fy = flipped(y.reverse());
        lemma_walk_reversed(geom, y);
        lemma_walk_ends(geom, fy, fy.len());
        assert(wa.last() == wb.last());
        assert(wb.reverse()[0] == wb.last());
        lemma_chained_concat(geom, x, fy);
        lemma_walk_concat(geom, x, fy, fy.len());
    }
}

/// How many ends of the line lie at `p`.
pub open spec fn ends_here<ID>(line: KeyedLineString<ID>, p: HashedPoint) -> nat {
    (if line.first_end() == p {
        1nat
    } else {
        0nat
    }) + (if line.last_end() == p {
        1nat
    } else {
        0nat
    })
}

/// How many ends of the first `n` lines lie at `p`.
pub open spec fn degree<ID>(lines: Seq<KeyedLineString<ID>>, p: HashedPoint, n: nat) -> nat
    decreases n,
{
    if n == 0 {
        0
    } else {
        degree(lines, p, (n - 1) as nat) + ends_here(lines[n - 1], p)
    }
}

/// The lines `i` and `j` end at `p`, and no other end of any line lies there.
pub open spec fn joinable_at<ID>(lines: Seq<KeyedLineString<ID>>, i: int, j: int, p: HashedPoint) -> bool {
    &&& ends_here(lines[i], p) >= 1
    &&& ends_here(lines[j], p) >= 1
    &&& degree(lines, p, lines.len()) == 2
}

/// The lines `i` and `j` are two lines that are to be joined: they meet at an end at which
/// nothing else ends.
pub open spec fn mergeable<ID>(lines: Seq<KeyedLineString<ID>>, i: int, j: int) -> bool {
    &&& 0 <= i < lines.len()
    &&& 0 <= j < lines.len()
    &&& i != j
    &&& (joinable_at(lines, i, j, lines[i].first_end()) || joinable_at(
        lines,
        i,
        j,
        lines[i].last_end(),
    ))
}

/// No two lines are left to be joined.
pub open spec fn settled<ID>(lines: Seq<KeyedLineString<ID>>) -> bool {
    forall|i: int, j: int| !#[trigger] mergeable(lines, i, j)
}

/// Every line has a point at least.
pub open spec fn all_drawn<ID>(lines: Seq<KeyedLineString<ID>>) -> bool {
    forall|i: int| 0 <= i < lines.len() ==> (#[trigger] lines[i]).linestring@.len() > 0
}

/// The identifiers of the pieces of a line.
pub open spec fn ids_of_line<ID>(line: KeyedLineString<ID>) -> Set<ID> {
    Set::new(|id: ID| exists|k: int| 0 <= k < line.ids@.len() && (#[trigger] line.ids@[k]).0 == id)
}

/// The identifiers of the pieces of all lines.
pub open spec fn id_set<ID>(lines: Seq<KeyedLineString<ID>>) -> Set<ID> {
    Set::new(
        |id: ID| exists|i: int| 0 <= i < lines.len() && ids_of_line(#[trigger] lines[i]).contains(id),
    )
}

/// How many pieces the first `n` lines have between them.
pub open spec fn total_ids<ID>(lines: Seq<KeyedLineString<ID>>, n: nat) -> nat
    decreases n,
{
    if n == 0 {
        0
    } else {
        total_ids(lines, (n - 1) as nat) + lines[n - 1].ids@.len()
    }
}

/// Counts the ends of all lines at `p`, as far as three, and finds the first line other than
/// `i` that ends there.
fn count_ends<ID>(lines: &Vec<KeyedLineString<ID>>, p: HashedPoint, i: usize) -> (found: (
    u8,
    Option<usize>,
))
    requires
        all_drawn(lines@),
    ensures
        found.0 == if degree(lines@, p, lines@.len()) >= 3 {
            3
        } else {
            degree(lines@, p, lines@.len())
        },
        found.1 matches Some(j) ==> j < lines@.len() && j != i && ends_here(lines@[j as int], p) >= 1,
        found.1 is None ==> forall|j: int|
            0 <= j < lines@.len() && j != i ==> ends_here(#[trigger] lines@[j], p) == 0,
{
    let mut count: u8 = 0;
    let mut other: Option<usize> = None;
    let mut k: usize = 0;
    while k < lines.len()
        invariant
            all_drawn(lines@),
            k <= lines@.len(),
            count == if degree(lines@, p, k as nat) >= 3 {
                3
            } else {
                degree(lines@, p, k as nat)
            },
            other matches Some(j) ==> j < lines@.len() && j != i && ends_here(lines@[j as int], p)
                >= 1,
            other is None ==> forall|j: int|
                0 <= j < k && j != i ==> ends_here(#[trigger] lines@[j], p) == 0,
        decreases lines@.len() - k,
    {
        let first = lines[k].first_pt() == p;
        let last = lines[k].last_pt() == p;
        if first && count < 3 {
            count += 1;
        }
        if last && count < 3 {
            count += 1;
        }
        if (first || last) && k != i && other.is_none() {
            other = Some(k);
        }
        k += 1;
    }
    (count, other)
}

/// Finds two lines that are to be joined, if any are left.
fn find_pair<ID>(lines: &Vec<KeyedLineString<ID>>) -> (pair: Option<(usize, usize)>)
    requires
        all_drawn(lines@),
    ensures
        pair matches Some((i, j)) ==> mergeable(lines@, i as int, j as int),
        pair is None ==> settled(lines@),
{
    let mut i: usize = 0;
    while i < lines.len()
        invariant
            all_drawn(lines@),
            i <= lines@.len(),
            forall|a: int, b: int| 0 <= a < i ==> !#[trigger] mergeable(lines@, a, b),
        decreases lines@.len() - i,
    {
        let first = lines[i].first_pt();
        let (count, other) = count_ends(lines, first, i);
        if count == 2 {
            match other {
                Some(j) => {
                    return Some((i, j));
                },
                None => {},
            }
        }
        let last = lines[i].last_pt();
        let (count, other) = count_ends(lines, last, i);
        if count == 2 {
            match other {
                Some(j) => {
                    return Some((i, j));
                },
                None => {},
            }
        }
        i += 1;
    }
    None
}

/// Taking a line away takes its pieces off the count.
proof fn lemma_total_remove<ID>(lines: Seq<KeyedLineString<ID>>, k: int)
    requires
        0 <= k < lines.len(),
    ensures
        total_ids(lines.remove(k), (lines.len() - 1) as nat) + lines[k].ids@.len() == total_ids(
            lines,
            lines.len(),
        ),
    decreases lines.len(),
{
    let n = lines.len();
    let rest = lines.remove(k);
    if k == n - 1 {
        assert(rest =~= lines.drop_last());
        lemma_total_prefix(lines, rest, (n - 1) as nat);
    } else {
        assert(rest.drop_last() =~= lines.drop_last().remove(k));
        lemma_total_remove(lines.drop_last(), k);
        lemma_total_prefix(rest, rest.drop_last(), (n - 2) as nat);
        lemma_total_prefix(lines, lines.drop_last(), (n - 1) as nat);
        assert(rest[n - 2] == lines[n - 1]);
    }
}

/// The count of the pieces of the first lines does not depend on what comes after them.
proof fn lemma_total_prefix<ID>(a: Seq<KeyedLineString<ID>>, b: Seq<KeyedLineString<ID>>, n: nat)
    requires
        n <= a.len(),
        n <= b.len(),
        forall|i: int| 0 <= i < n ==> a[i] == b[i],
    ensures
        total_ids(a, n) == total_ids(b, n),
    decreases n,
{
    if n > 0 {
        lemma_total_prefix(a, b, (n - 1) as nat);
    }
}

/// The pieces of a joined line are the pieces of the two lines.
proof fn lemma_joined_ids<ID>(a: KeyedLineString<ID>, b: KeyedLineString<ID>, joined: KeyedLineString<ID>)
    requires
        joined.ids@ == joined_ids(a, b),
    ensures
        ids_of_line(joined) =~= ids_of_line(a).union(ids_of_line(b)),
        joined.ids@.len() == a.ids@.len() + b.ids@.len(),
{
    let x = a.ids@;
    let y = b.ids@;
    let fx = flipped(x.reverse());
    let fy = flipped(y.reverse());
    assert forall|id: ID| ids_of_line(joined).contains(id) <==> (ids_of_line(a).contains(id)
        || ids_of_line(b).contains(id)) by {
        if ids_of_line(joined).contains(id) {
            let k = choose|k: int| 0 <= k < joined.ids@.len() && (#[trigger] joined.ids@[k]).0 == id;
            if a.first_end() == b.first_end() {
                if k < fx.len() {
                    assert(x[x.len() - 1 - k].0 == id);
                } else {
                    assert(y[k - fx.len()].0 == id);
                }
            } else if a.first_end() == b.last_end() {
                if k < y.len() {
                    assert(y[k].0 == id);
                } else {
                    assert(x[k - y.len()].0 == id);
                }
            } else if a.last_end() == b.first_end() {
                if k < x.len() {
                    assert(x[k].0 == id);
                } else {
                    assert(y[k - x.len()].0 == id);
                }
            } else {
                if k < x.len() {
                    assert(x[k].0 == id);
                } else {
                    assert(y[y.len() - 1 - (k - x.len())].0 == id);
                }
            }
        }
        if ids_of_line(a).contains(id) {
            let k = choose|k: int| 0 <= k < x.len() && (#[trigger] x[k]).0 == id;
            if a.first_end() == b.first_end() {
                assert(joined.ids@[x.len() - 1 - k].0 == id);
            } else if a.first_end() == b.last_end() {
                assert(joined.ids@[y.len() + k].0 == id);
            } else {
                assert(joined.ids@[k].0 == id);
            }
        }
        if ids_of_line(b).contains(id) {
            let k = choose|k: int| 0 <= k < y.len() && (#[trigger] y[k]).0 == id;
            if a.first_end() == b.first_end() {
                assert(joined.ids@[x.len() + k].0 == id);
            } else if a.first_end() == b.last_end() {
                assert(joined.ids@[k].0 == id);
            } else if a.last_end() == b.first_end() {
                assert(joined.ids@[x.len() + k].0 == id);
            } else {
                assert(joined.ids@[x.len() + (y.len() - 1 - k)].0 == id);
            }
        }
    }
}

/// The lines once the lines `lo` and `hi` are taken away and the line joined of them is put
/// behind the others.
pub open spec fn merged<ID>(
    lines: Seq<KeyedLineString<ID>>,
    lo: int,
    hi: int,
    joined: KeyedLineString<ID>,
) -> Seq<KeyedLineString<ID>> {
    lines.remove(hi).remove(lo).push(joined)
}

/// Joining two lines keeps the pieces of all lines what they were.
proof fn lemma_merged_ids<ID>(
    lines: Seq<KeyedLineString<ID>>,
    lo: int,
    hi: int,
    joined: KeyedLineString<ID>,
)
    requires
        0 <= lo < hi < lines.len(),
        joined.ids@ == joined_ids(lines[lo], lines[hi]),
    ensures
        id_set(merged(lines, lo, hi, joined)) =~= id_set(lines),
        total_ids(merged(lines, lo, hi, joined), merged(lines, lo, hi, joined).len()) == total_ids(
            lines,
            lines.len(),
        ),
{
    let rest = lines.remove(hi).remove(lo);
    let now = merged(lines, lo, hi, joined);
    lemma_joined_ids(lines[lo], lines[hi], joined);
    lemma_total_remove(lines, hi);
    lemma_total_remove(lines.remove(hi), lo);
    lemma_total_prefix(now, rest, rest.len());
    assert forall|id: ID| id_set(now).contains(id) <==> id_set(lines).contains(id) by {
        if id_set(now).contains(id) {
            let i = choose|i: int| 0 <= i < now.len() && ids_of_line(#[trigger] now[i]).contains(id);
            if i == rest.len() {
                if ids_of_line(lines[lo]).contains(id) {
                } else {
                    assert(ids_of_line(lines[hi]).contains(id));
                }
            } else if i < lo {
                assert(now[i] == lines[i]);
            } else if i < hi - 1 {
                assert(now[i] == lines[i + 1]);
            } else {
                assert(now[i] == lines[i + 2]);
            }
        }
        if id_set(lines).contains(id) {
            let i = choose|i: int| 0 <= i < lines.len() && ids_of_line(#[trigger] lines[i]).contains(id);
            if i == lo || i == hi {
                assert(ids_of_line(now[rest.len() as int]).contains(id));
            } else if i < lo {
                assert(now[i] == lines[i]);
            } else if i < hi {
                assert(now[i - 1] == lines[i]);
            } else {
                assert(now[i - 2] == lines[i]);
            }
        }
    }
}

/// Every line is a walk through its pieces.
pub open spec fn all_follow<ID>(lines: Seq<KeyedLineString<ID>>, geom: Map<ID, Seq<Pt>>) -> bool {
    forall|i: int| 0 <= i < lines.len() ==> follows(#[trigger] lines[i], geom)
}

/// The identifiers of pieces, in their order.
pub open spec fn names_of<ID>(ids: Seq<(ID, bool)>) -> Seq<ID> {
    Seq::new(ids.len(), |i: int| ids[i].0)
}

/// The identifiers of the pieces of the first `n` lines, each as often as it comes.
pub open spec fn id_bag<ID>(lines: Seq<KeyedLineString<ID>>, n: nat) -> vstd::multiset::Multiset<ID>
    decreases n,
{
    if n == 0 {
        vstd::multiset::Multiset::empty()
    } else {
        id_bag(lines, (n - 1) as nat).add(names_of(lines[n - 1].ids@).to_multiset())
    }
}

/// A joined line holds the identifiers of the two lines, each as often as they did.
proof fn lemma_joined_bag<ID>(a: KeyedLineString<ID>, b: KeyedLineString<ID>, joined: KeyedLineString<ID>)
    requires
        joined.ids@ == joined_ids(a, b),
    ensures
        names_of(joined.ids@).to_multiset() == names_of(a.ids@).to_multiset().add(
            names_of(b.ids@).to_multiset(),
        ),
{
    broadcast use vstd::multiset::group_multiset_axioms;

    let x = a.ids@;
    let y = b.ids@;
    let nx = names_of(x);
    let ny = names_of(y);
    nx.lemma_reverse_to_multiset();
    ny.lemma_reverse_to_multiset();
    if a.first_end() == b.first_end() {
        assert(names_of(joined.ids@) =~= nx.reverse() + ny);
        vstd::seq_lib::lemma_multiset_commutative(nx.reverse(), ny);
    } else if a.first_end() == b.last_end() {
        assert(names_of(joined.ids@) =~= ny + nx);
        vstd::seq_lib::lemma_multiset_commutative(ny, nx);
    } else if a.last_end() == b.first_end() {
        assert(names_of(joined.ids@) =~= nx + ny);
        vstd::seq_lib::lemma_multiset_commutative(nx, ny);
    } else {
        assert(names_of(joined.ids@) =~= nx + ny.reverse());
        vstd::seq_lib::lemma_multiset_commutative(nx, ny.reverse());
    }
    assert(names_of(joined.ids@).to_multiset() =~= nx.to_multiset().add(ny.to_multiset()));
}

/// The identifiers of the first lines do not depend on what comes after them.
proof fn lemma_bag_prefix<ID>(a: Seq<KeyedLineString<ID>>, b: Seq<KeyedLineString<ID>>, n: nat)
    requires
        n <= a.len(),
        n <= b.len(),
        forall|i: int| 0 <= i < n ==> a[i] == b[i],
    ensures
        id_bag(a, n) == id_bag(b, n),
    decreases n,
{
    if n > 0 {
        lemma_bag_prefix(a, b, (n - 1) as nat);
    }
}

/// Taking a line away takes its identifiers out of the bag.
proof fn lemma_bag_remove<ID>(lines: Seq<KeyedLineString<ID>>, k: int)
    requires
        0 <= k < lines.len(),
    ensures
        id_bag(lines.remove(k), (lines.len() - 1) as nat).add(names_of(lines[k].ids@).to_multiset())
            == id_bag(lines, lines.len()),
    decreases lines.len(),
{
    broadcast use vstd::multiset::group_multiset_axioms;

    let n = lines.len();
    let rest = lines.remove(k);
    if k == n - 1 {
        assert(rest =~= lines.drop_last());
        lemma_bag_prefix(lines, rest, (n - 1) as nat);
    } else {
        assert(rest.drop_last() =~= lines.drop_last().remove(k));
        lemma_bag_remove(lines.drop_last(), k);
        lemma_bag_prefix(rest, rest.drop_last(), (n - 2) as nat);
        lemma_bag_prefix(lines, lines.drop_last(), (n - 1) as nat);
        assert(rest[n - 2] == lines[n - 1]);
        assert(id_bag(rest, (n - 1) as nat).add(names_of(lines[k].ids@).to_multiset()) =~= id_bag(
            lines,
            n,
        ));
    }
}

/// Joining two lines keeps every identifier as often as it came.
proof fn lemma_merged_bag<ID>(lines: Seq<KeyedLineString<ID>>, lo: int, hi: int, joined: KeyedLineString<ID>)
    requires
        0 <= lo < hi < lines.len(),
        joined.ids@ == joined_ids(lines[lo], lines[hi]),
    ensures
        id_bag(merged(lines, lo, hi, joined), merged(lines, lo, hi, joined).len()) == id_bag(
            lines,
            lines.len(),
        ),
{
    broadcast use vstd::multiset::group_multiset_axioms;

    let rest = lines.remove(hi).remove(lo);
    let now = merged(lines, lo, hi, joined);
    lemma_joined_bag(lines[lo], lines[hi], joined);
    lemma_bag_remove(lines, hi);
    lemma_bag_remove(lines.remove(hi), lo);
    lemma_bag_prefix(now, rest, rest.len());
    assert(id_bag(now, now.len()) =~= id_bag(lines, lines.len()));
}

/// The line is the one joined of the lines `a` and `b`.
pub open spec fn is_join<ID>(a: KeyedLineString<ID>, b: KeyedLineString<ID>, joined: KeyedLineString<ID>) -> bool {
    &&& joined.linestring@ == joined_points(a, b)
    &&& joined.ids@ == joined_ids(a, b)
    &&& joined.key == a.key
}

/// The lines `after` come of the lines `before` by joining the lines `lo` and `hi`, which were
/// to be joined, into the line `joined`.
pub open spec fn joined_at<ID>(
    before: Seq<KeyedLineString<ID>>,
    after: Seq<KeyedLineString<ID>>,
    lo: int,
    hi: int,
    joined: KeyedLineString<ID>,
) -> bool {
    &&& 0 <= lo < hi < before.len()
    &&& mergeable(before, lo, hi) || mergeable(before, hi, lo)
    &&& is_join(before[lo], before[hi], joined)
    &&& after == merged(before, lo, hi, joined)
}

/// The lines `after` come of the lines `before` by joining two lines that were to be joined.
pub open spec fn one_join<ID>(before: Seq<KeyedLineString<ID>>, after: Seq<KeyedLineString<ID>>) -> bool {
    exists|lo: int, hi: int, joined: KeyedLineString<ID>| #[trigger]
        joined_at(before, after, lo, hi, joined)
}

/// The stages lead from the lines `input` to the lines `output`, each to the next by joining
/// two lines that were to be joined; so each stage has one line fewer than the one before.
pub open spec fn joined_up<ID>(
    input: Seq<KeyedLineString<ID>>,
    output: Seq<KeyedLineString<ID>>,
    stages: Seq<Seq<KeyedLineString<ID>>>,
) -> bool {
    &&& stages.len() > 0
    &&& stages[0] == input
    &&& stages.last() == output
    &&& forall|t: int| 0 <= t < stages.len() - 1 ==> one_join(#[trigger] stages[t], stages[t + 1])
    &&& forall|t: int| 0 <= t < stages.len() ==> (#[trigger] stages[t]).len() + t == input.len()
}

/// The piece `m` of the line is a piece of a line of `input` with the same key.
pub open spec fn piece_kept<ID>(input: Seq<KeyedLineString<ID>>, line: KeyedLineString<ID>, m: int) -> bool {
    exists|i: int|
        0 <= i < input.len() && input[i].key == line.key && ids_of_line(#[trigger] input[i]).contains(
            line.ids@[m].0,
        )
}

/// Each piece of a line of `output` is a piece of a line of `input` with the same key.
pub open spec fn keys_kept<ID>(input: Seq<KeyedLineString<ID>>, output: Seq<KeyedLineString<ID>>) -> bool {
    forall|k: int, m: int|
        0 <= k < output.len() && 0 <= m < output[k].ids@.len() ==> #[trigger] piece_kept(
            input,
            output[k],
            m,
        )
}

/// Two lines that are to be joined have the same key.
proof fn lemma_mergeable_keys<ID>(lines: Seq<KeyedLineString<ID>>, i: int, j: int)
    requires
        mergeable(lines, i, j),
    ensures
        lines[i].key == lines[j].key,
{
}

/// Joining two lines of one key keeps each piece with the key that it had.
proof fn lemma_keys_kept<ID>(
    input: Seq<KeyedLineString<ID>>,
    before: Seq<KeyedLineString<ID>>,
    lo: int,
    hi: int,
    joined: KeyedLineString<ID>,
)
    requires
        keys_kept(input, before),
        0 <= lo < hi < before.len(),
        is_join(before[lo], before[hi], joined),
        before[lo].key == before[hi].key,
    ensures
        keys_kept(input, merged(before, lo, hi, joined)),
{
    let after = merged(before, lo, hi, joined);
    lemma_joined_ids(before[lo], before[hi], joined);
    assert forall|k: int, m: int|
        0 <= k < after.len() && 0 <= m < after[k].ids@.len() implies #[trigger] piece_kept(
        input,
        after[k],
        m,
    ) by {
        let id = after[k].ids@[m].0;
        assert(ids_of_line(after[k]).contains(id));
        let from = if k < lo {
            k
        } else if k < hi - 1 {
            k + 1
        } else if k < after.len() - 1 {
            k + 2
        } else if ids_of_line(before[lo]).contains(id) {
            lo
        } else {
            hi
        };
        if k < after.len() - 1 {
            assert(after[k] == before[from]);
        }
        assert(ids_of_line(before[from]).contains(id));
        assert(before[from].key == after[k].key);
        let n = choose|n: int| 0 <= n < before[from].ids@.len() && (#[trigger] before[from].ids@[n]).0 == id;
        assert(piece_kept(input, before[from], n));
        let i = choose|i: int|
            0 <= i < input.len() && input[i].key == before[from].key && ids_of_line(
                #[trigger] input[i],
            ).contains(before[from].ids@[n].0);
        assert(ids_of_line(input[i]).contains(id));
    }
}

/// What joining all lines that are to be joined comes to: the lines that come back are got
/// by joining two lines that were to be joined, time after time, until no two lines are left
/// to be joined. So lines of which none were to be joined come back as they were; the lines
/// that come back are made of the pieces that the lines were made of, each as often as it came,
/// each line with the key of the lines whose pieces it holds; and where each line was a walk
/// through its pieces, each line that comes back is one.
pub open spec fn collapsed<ID>(input: Vec<KeyedLineString<ID>>, output: Vec<KeyedLineString<ID>>) -> bool {
    &&& all_drawn(output@)
    &&& settled(output@)
    &&& exists|stages: Seq<Seq<KeyedLineString<ID>>>| #[trigger] joined_up(input@, output@, stages)
    &&& keys_kept(input@, output@)
    &&& settled(input@) ==> output == input
    &&& id_set(output@) == id_set(input@)
    &&& total_ids(output@, output@.len()) == total_ids(input@, input@.len())
    &&& id_bag(output@, output@.len()) == id_bag(input@, input@.len())
    &&& forall|geom: Map<ID, Seq<Pt>>| #[trigger]
        all_follow(input@, geom) ==> all_follow(output@, geom)
}

/// Joins the lines `i` and `j`, which are to be joined, and puts the joined line behind the
/// others.
fn join_pair<ID>(lines: &mut Vec<KeyedLineString<ID>>, i: usize, j: usize)
    requires
        all_drawn(old(lines)@),
        mergeable(old(lines)@, i as int, j as int),
    ensures
        one_join(old(lines)@, final(lines)@),
        all_drawn(final(lines)@),
        final(lines)@.len() + 1 == old(lines)@.len(),
{
    let ghost before = lines@;
    let (lo, hi) = if i < j {
        (i, j)
    } else {
        (j, i)
    };
    let b = lines.remove(hi);
    let a = lines.remove(lo);
    assert(a == before[lo as int] && b == before[hi as int]);
    let joined = join_lines(a, b);
    lines.push(joined);
    proof {
        assert(lines@ =~= merged(before, lo as int, hi as int, joined));
        assert(joined_at(before, lines@, lo as int, hi as int, joined));
        assert forall|k: int| 0 <= k < lines@.len() implies (#[trigger] lines@[k]).linestring@.len()
            > 0 by {
            if k < lo {
                assert(lines@[k] == before[k]);
            } else if k < hi - 1 {
                assert(lines@[k] == before[k + 1]);
            } else if k < lines@.len() - 1 {
                assert(lines@[k] == before[k + 2]);
            }
        }
    }
}

/// Joining two lines that are to be joined keeps the pieces of all lines what they were, each
/// with its key, and leaves each line a walk through its pieces where each was one.
proof fn lemma_one_join<ID>(
    input: Seq<KeyedLineString<ID>>,
    before: Seq<KeyedLineString<ID>>,
    after: Seq<KeyedLineString<ID>>,
)
    requires
        one_join(before, after),
        all_drawn(before),
        keys_kept(input, before),
    ensures
        keys_kept(input, after),
        id_set(after) == id_set(before),
        total_ids(after, after.len()) == total_ids(before, before.len()),
        id_bag(after, after.len()) == id_bag(before, before.len()),
        forall|geom: Map<ID, Seq<Pt>>| #[trigger] all_follow(before, geom) ==> all_follow(after, geom),
{
    let (lo, hi, joined) = choose|lo: int, hi: int, joined: KeyedLineString<ID>| #[trigger]
        joined_at(before, after, lo, hi, joined);
    lemma_merged_ids(before, lo, hi, joined);
    lemma_merged_bag(before, lo, hi, joined);
    if mergeable(before, lo, hi) {
        lemma_mergeable_keys(before, lo, hi);
    } else {
        lemma_mergeable_keys(before, hi, lo);
    }
    lemma_keys_kept(input, before, lo, hi, joined);
    assert forall|geom: Map<ID, Seq<Pt>>| #[trigger] all_follow(before, geom) implies all_follow(
        after,
        geom,
    ) by {
        assert(follows(before[lo], geom));
        assert(follows(before[hi], geom));
        lemma_join_follows(before[lo], before[hi], joined, geom);
        assert forall|k: int| 0 <= k < after.len() implies follows(#[trigger] after[k], geom) by {
            if k < lo {
                assert(after[k] == before[k]);
            } else if k < hi - 1 {
                assert(after[k] == before[k + 1]);
            } else if k < after.len() - 1 {
                assert(after[k] == before[k + 2]);
            }
        }
    }
}

/// One more joining makes one more stage.
proof fn lemma_stage_added<ID>(
    input: Seq<KeyedLineString<ID>>,
    before: Seq<KeyedLineString<ID>>,
    after: Seq<KeyedLineString<ID>>,
    stages: Seq<Seq<KeyedLineString<ID>>>,
)
    requires
        joined_up(input, before, stages),
        one_join(before, after),
        after.len() + 1 == before.len(),
    ensures
        joined_up(input, after, stages.push(after)),
{
    let longer = stages.push(after);
    assert forall|t: int| 0 <= t < longer.len() - 1 implies one_join(#[trigger] longer[t], longer[t + 1]) by {
        if t < stages.len() - 1 {
            assert(longer[t] == stages[t] && longer[t + 1] == stages[t + 1]);
            assert(one_join(stages[t], stages[t + 1]));
        } else {
            assert(longer[t] == before && longer[t + 1] == after);
        }
    }
    assert forall|t: int| 0 <= t < longer.len() implies (#[trigger] longer[t]).len() + t == input.len() by {
        if t < stages.len() {
            assert(longer[t] == stages[t]);
        } else {
            assert(stages[stages.len() - 1].len() + (stages.len() - 1) == input.len());
        }
    }
}

/// Finds every case of exactly two lines with the same key that meet at a point, and joins
/// the two into one, until no such case is left. The lines keep track of the pieces that they
/// are made of, in the order and the direction in which the joined line runs through them. A
/// line that comes back to its own start is left as it is.
pub fn collapse_degree_2<ID>(input_lines: Vec<KeyedLineString<ID>>) -> (output: Vec<KeyedLineString<ID>>)
    requires
        all_drawn(input_lines@),
    ensures
        collapsed(input_lines, output),
{
    let mut lines = input_lines;
    let mut done = false;
    let ghost mut untouched = true;
    let ghost mut stages = seq![input_lines@];
    proof {
        assert forall|k: int, m: int|
            0 <= k < lines@.len() && 0 <= m < lines@[k].ids@.len() implies #[trigger] piece_kept(
            input_lines@,
            lines@[k],
            m,
        ) by {
            assert(ids_of_line(input_lines@[k]).contains(lines@[k].ids@[m].0));
        }
    }
    while !done
        invariant
            all_drawn(lines@),
            joined_up(input_lines@, lines@, stages),
            keys_kept(input_lines@, lines@),
            untouched ==> lines == input_lines,
            !untouched ==> !settled(input_lines@),
            done ==> settled(lines@),
            id_set(lines@) == id_set(input_lines@),
            total_ids(lines@, lines@.len()) == total_ids(input_lines@, input_lines@.len()),
            id_bag(lines@, lines@.len()) == id_bag(input_lines@, input_lines@.len()),
            forall|geom: Map<ID, Seq<Pt>>| #[trigger]
                all_follow(input_lines@, geom) ==> all_follow(lines@, geom),
        decreases lines@.len() + (if done { 0nat } else { 1nat }),
    {
        match find_pair(&lines) {
            None => {
                done = true;
            },
            Some((i, j)) => {
                let ghost before = lines@;
                join_pair(&mut lines, i, j);
                proof {
                    untouched = false;
                    lemma_one_join(input_lines@, before, lines@);
                    lemma_stage_added(input_lines@, before, lines@, stages);
                    stages = stages.push(lines@);
                }
            },
        }
    }
    lines
}

/// Where two lines are to be joined, fewer lines come back than went in.
pub proof fn lemma_collapse_joins<ID>(
    input: Vec<KeyedLineString<ID>>,
    output: Vec<KeyedLineString<ID>>,
    i: int,
    j: int,
)
    requires
        collapsed(input, output),
        mergeable(input@, i, j),
    ensures
        output@.len() < input@.len(),
{
    let stages = choose|stages: Seq<Seq<KeyedLineString<ID>>>| #[trigger]
        joined_up(input@, output@, stages);
    if stages.len() == 1 {
        assert(output@ == input@);
        assert(!mergeable(output@, i, j));
    } else {
        assert(stages[stages.len() - 1].len() + (stages.len() - 1) == input@.len());
    }
}

/// Two lines that are to be joined, and no others, come back as the one line joined of them.
pub proof fn lemma_pair_is_joined<ID>(input: Vec<KeyedLineString<ID>>, output: Vec<KeyedLineString<ID>>)
    requires
        collapsed(input, output),
        input@.len() == 2,
        mergeable(input@, 0, 1),
    ensures
        output@.len() == 1,
        is_join(input@[0], input@[1], output@[0]),
{
    let stages = choose|stages: Seq<Seq<KeyedLineString<ID>>>| #[trigger]
        joined_up(input@, output@, stages);
    if stages.len() == 1 {
        assert(output@ == input@);
        assert(!mergeable(output@, 0, 1));
    } else {
        assert(one_join(stages[0], stages[1]));
        let (lo, hi, joined) = choose|lo: int, hi: int, joined: KeyedLineString<ID>| #[trigger]
            joined_at(stages[0], stages[1], lo, hi, joined);
        assert(lo == 0 && hi == 1);
        assert(stages[1] =~= seq![joined]);
        if stages.len() > 2 {
            assert(one_join(stages[1], stages[2]));
            let (lo2, hi2, joined2) = choose|lo: int, hi: int, joined: KeyedLineString<ID>| #[trigger]
                joined_at(stages[1], stages[2], lo, hi, joined);
            assert(false);
        }
        assert(output@ == stages[1]);
    }
}

/// Joining the lines once more changes nothing: what comes back from joining is left as it is
/// by joining again.
pub proof fn lemma_collapse_idempotent<ID>(
    input: Vec<KeyedLineString<ID>>,
    once: Vec<KeyedLineString<ID>>,
    twice: Vec<KeyedLineString<ID>>,
)
    requires
        collapsed(input, once),
        collapsed(once, twice),
    ensures
        twice == once,
{
}

} // verus!
