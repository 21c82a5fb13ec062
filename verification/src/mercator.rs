//! Carrying points between geographic coordinates and the planar frame of an area.
//!
//! A geographic point holds longitude and latitude in ten-millionths of a degree. A planar
//! point holds centimetres, east and south of the north-west corner of the area's bounds.

use crate::geometry::Pt;
use vstd::arithmetic::div_mod::{
    lemma_div_is_ordered, lemma_div_pos_is_pos, lemma_fundamental_div_mod,
};
use vstd::arithmetic::mul::lemma_mul_nonnegative;
use vstd::prelude::*;

verus! {

/// The bounds of an area and the size of the planar frame laid over them.
#[derive(Clone, Copy, Debug, PartialEq, Eq, Structural)]
pub struct Mercator {
    pub min_lon: i32,
    pub min_lat: i32,
    pub max_lon: i32,
    pub max_lat: i32,
    /// The width of the frame, in centimetres.
    pub width: u32,
    /// The height of the frame, in centimetres.
    pub height: u32,
}

/// Where `v` falls on a scale of `size` parts laid from `lo` to `hi`, rounded down: at the
/// start where the scale has no extent.
pub open spec fn scale(v: int, lo: int, hi: int, size: int) -> int {
    if hi == lo {
        0
    } else {
        size * (v - lo) / (hi - lo)
    }
}

/// The nearest number that a coordinate can hold.
pub open spec fn clamp_i32(v: int) -> i32 {
    if v < i32::MIN {
        i32::MIN
    } else if v > i32::MAX {
        i32::MAX
    } else {
        v as i32
    }
}

/// The bounds that hold all of `pts`: a corner of least and a corner of greatest coordinates.
pub open spec fn bounds_of(pts: Seq<Pt>, lo: Pt, hi: Pt) -> bool {
    &&& forall|i: int|
        0 <= i < pts.len() ==> lo.x <= (#[trigger] pts[i]).x <= hi.x && lo.y <= pts[i].y <= hi.y
    &&& exists|i: int| 0 <= i < pts.len() && (#[trigger] pts[i]).x == lo.x
    &&& exists|i: int| 0 <= i < pts.len() && (#[trigger] pts[i]).x == hi.x
    &&& exists|i: int| 0 <= i < pts.len() && (#[trigger] pts[i]).y == lo.y
    &&& exists|i: int| 0 <= i < pts.len() && (#[trigger] pts[i]).y == hi.y
}

/// The least and the greatest coordinates among `pts`, or `None` where there are no points.
pub fn bounding_box(pts: &Vec<Pt>) -> (bounds: Option<(Pt, Pt)>)
    ensures
        bounds is None <==> pts@.len() == 0,
        bounds matches Some((lo, hi)) ==> bounds_of(pts@, lo, hi),
{
    if pts.len() == 0 {
        return None;
    }
    let mut lo = pts[0];
    let mut hi = pts[0];
    let mut i: usize = 1;
    assert(pts@.take(1)[0] == pts@[0]);
    while i < pts.len()
        invariant
            1 <= i <= pts@.len(),
            bounds_of(pts@.take(i as int), lo, hi),
        decreases pts@.len() - i,
    {
        let p = pts[i];
        let ghost before = pts@.take(i as int);
        let ghost after = pts@.take(i + 1);
        proof {
            assert(after =~= before.push(p));
            let ix = choose|k: int| 0 <= k < before.len() && (#[trigger] before[k]).x == lo.x;
            let jx = choose|k: int| 0 <= k < before.len() && (#[trigger] before[k]).x == hi.x;
            let iy = choose|k: int| 0 <= k < before.len() && (#[trigger] before[k]).y == lo.y;
            let jy = choose|k: int| 0 <= k < before.len() && (#[trigger] before[k]).y == hi.y;
            assert(after[ix] == before[ix] && after[jx] == before[jx]);
            assert(after[iy] == before[iy] && after[jy] == before[jy]);
            assert(after[i as int] == p);
            assert forall|k: int| 0 <= k < before.len() implies #[trigger] after[k] == before[k] by {}
        }
        if p.x < lo.x {
            lo = Pt { x: p.x, y: lo.y };
        }
        if p.x > hi.x {
            hi = Pt { x: p.x, y: hi.y };
        }
        if p.y < lo.y {
            lo = Pt { x: lo.x, y: p.y };
        }
        if p.y > hi.y {
            hi = Pt { x: hi.x, y: p.y };
        }
        i += 1;
    }
    assert(pts@.take(i as int) =~= pts@);
    Some((lo, hi))
}

fn scaled(v: i64, lo: i64, hi: i64, size: u32) -> (r: i128)
    requires
        lo <= hi,
        -0x2_0000_0000 <= v <= 0x2_0000_0000,
        -0x2_0000_0000 <= lo <= 0x2_0000_0000,
        -0x2_0000_0000 <= hi <= 0x2_0000_0000,
    ensures
        r == scale(v as int, lo as int, hi as int, size as int),
        -0x4_0000_0000_0000_0000 <= r <= 0x4_0000_0000_0000_0000,
{
    if hi == lo {
        return 0;
    }
    let span: i64 = hi - lo;
    let off: i64 = v - lo;
    assert(-0x1_0000_0000 * 0x4_0000_0000 <= size * off <= 0x1_0000_0000 * 0x4_0000_0000)
        by (nonlinear_arith)
        requires
            0 <= size < 0x1_0000_0000,
            -0x4_0000_0000 <= off <= 0x4_0000_0000,
    ;
    let num: i128 = size as i128 * off as i128;
    let span_wide: i128 = span as i128;
    // the quotient rounded down, whatever the sign of the numerator
    let q: i128 = if num >= 0 {
        num / span_wide
    } else {
        let up: i128 = (-num + span_wide - 1) / span_wide;
        proof {
            lemma_floor_of_negative(num as int, span_wide as int);
        }
        -up
    };
    proof {
        lemma_quotient_bounded(num as int, span_wide as int);
    }
    q
}

/// Rounding a negative quotient down is rounding its opposite up.
proof fn lemma_floor_of_negative(num: int, d: int)
    requires
        num < 0,
        d > 0,
    ensures
        num / d == -((-num + d - 1) / d),
{
    let q = (-num + d - 1) / d;
    lemma_fundamental_div_mod(-num + d - 1, d);
    let r = (-num + d - 1) % d;
    assert(0 <= r < d);
    assert(-num + d - 1 == d * q + r);
    // num == d * (-q) + (d - 1 - r)
    assert(num == d * (-q) + (d - 1 - r)) by (nonlinear_arith)
        requires
            -num + d - 1 == d * q + r,
    ;
    vstd::arithmetic::div_mod::lemma_fundamental_div_mod_converse(num, d, -q, d - 1 - r);
}

/// A quotient by a positive number is no farther from zero than what is divided.
proof fn lemma_quotient_bounded(num: int, d: int)
    requires
        d > 0,
    ensures
        num >= 0 ==> 0 <= num / d <= num,
        num < 0 ==> num <= num / d < 0,
{
    lemma_fundamental_div_mod(num, d);
    let q = num / d;
    let r = num % d;
    if num >= 0 {
        if q < 0 {
            assert(d * q <= -d) by (nonlinear_arith)
                requires
                    q <= -1,
                    d > 0,
            ;
        }
        if q > num {
            assert(d * q >= q) by (nonlinear_arith)
                requires
                    q >= 0,
                    d >= 1,
            ;
        }
    } else {
        if q >= 0 {
            assert(d * q >= 0) by (nonlinear_arith)
                requires
                    q >= 0,
                    d > 0,
            ;
        }
        if q < num {
            assert(d * (q + 1) <= num) by (nonlinear_arith)
                requires
                    q + 1 <= num,
                    num < 0,
                    d >= 1,
            ;
            assert(d * (q + 1) == d * q + d) by (nonlinear_arith);
        }
    }
}

fn clamped(v: i128) -> (r: i32)
    ensures
        r == clamp_i32(v as int),
{
    if v < i32::MIN as i128 {
        i32::MIN
    } else if v > i32::MAX as i128 {
        i32::MAX
    } else {
        v as i32
    }
}

impl Mercator {
    /// The bounds are in order.
    pub open spec fn wf(self) -> bool {
        self.min_lon <= self.max_lon && self.min_lat <= self.max_lat
    }

    /// The planar point of a geographic point.
    pub open spec fn to_mercator(self, pt: Pt) -> Pt {
        Pt {
            x: clamp_i32(
                scale(pt.x as int, self.min_lon as int, self.max_lon as int, self.width as int),
            ),
            y: clamp_i32(
                self.height - scale(
                    pt.y as int,
                    self.min_lat as int,
                    self.max_lat as int,
                    self.height as int,
                ),
            ),
        }
    }

    /// The geographic point of a planar point.
    pub open spec fn to_wgs84(self, pt: Pt) -> Pt {
        Pt {
            x: clamp_i32(
                self.min_lon + scale(pt.x as int, 0, self.width as int, self.max_lon - self.min_lon),
            ),
            y: clamp_i32(
                self.min_lat + scale(
                    self.height - pt.y,
                    0,
                    self.height as int,
                    self.max_lat - self.min_lat,
                ),
            ),
        }
    }

    /// A frame of `width` by `height` centimetres over the bounds from `lo` to `hi`, or `None`
    /// where the bounds are not in order.
    pub fn new(lo: Pt, hi: Pt, width: u32, height: u32) -> (m: Option<Mercator>)
        ensures
            m is Some <==> lo.x <= hi.x && lo.y <= hi.y,
            m matches Some(frame) ==> frame.wf() && frame == (Mercator {
                min_lon: lo.x,
                min_lat: lo.y,
                max_lon: hi.x,
                max_lat: hi.y,
                width,
                height,
            }),
    {
        if lo.x <= hi.x && lo.y <= hi.y {
            Some(
                Mercator {
                    min_lon: lo.x,
                    min_lat: lo.y,
                    max_lon: hi.x,
                    max_lat: hi.y,
                    width,
                    height,
                },
            )
        } else {
            None
        }
    }

    /// Carries a geographic point into the planar frame.
    pub fn pt_to_mercator(&self, pt: Pt) -> (planar: Pt)
        requires
            self.wf(),
        ensures
            planar == self.to_mercator(pt),
    {
        let x = scaled(pt.x as i64, self.min_lon as i64, self.max_lon as i64, self.width);
        let y = scaled(pt.y as i64, self.min_lat as i64, self.max_lat as i64, self.height);
        Pt { x: clamped(x), y: clamped(self.height as i128 - y) }
    }

    /// Carries a planar point back to geographic coordinates.
    pub fn pt_to_wgs84(&self, pt: Pt) -> (geographic: Pt)
        requires
            self.wf(),
        ensures
            geographic == self.to_wgs84(pt),
    {
        let lon_span: u32 = (self.max_lon as i64 - self.min_lon as i64) as u32;
        let lat_span: u32 = (self.max_lat as i64 - self.min_lat as i64) as u32;
        let x = scaled(pt.x as i64, 0, self.width as i64, lon_span);
        let y = scaled(self.height as i64 - pt.y as i64, 0, self.height as i64, lat_span);
        Pt { x: clamped(self.min_lon as i128 + x), y: clamped(self.min_lat as i128 + y) }
    }

    /// Carries each of `pts` into the planar frame.
    pub fn to_mercator_in_place(&self, pts: &mut Vec<Pt>)
        requires
            self.wf(),
        ensures
            final(pts)@.len() == old(pts)@.len(),
            forall|i: int|
                0 <= i < old(pts)@.len() ==> #[trigger] final(pts)@[i] == self.to_mercator(
                    old(pts)@[i],
                ),
    {
        let mut i: usize = 0;
        while i < pts.len()
            invariant
                self.wf(),
                i <= pts@.len(),
                pts@.len() == old(pts)@.len(),
                forall|j: int| 0 <= j < i ==> #[trigger] pts@[j] == self.to_mercator(old(pts)@[j]),
                forall|j: int| i <= j < pts@.len() ==> #[trigger] pts@[j] == old(pts)@[j],
            decreases pts@.len() - i,
        {
            let p = self.pt_to_mercator(pts[i]);
            pts[i] = p;
            i += 1;
        }
    }
}

/// A point within the bounds lands within the frame.
pub proof fn lemma_to_mercator_in_frame(m: Mercator, pt: Pt)
    requires
        m.wf(),
        m.min_lon <= pt.x <= m.max_lon,
        m.min_lat <= pt.y <= m.max_lat,
        m.width <= i32::MAX,
        m.height <= i32::MAX,
    ensures
        0 <= m.to_mercator(pt).x <= m.width,
        0 <= m.to_mercator(pt).y <= m.height,
{
    lemma_scale_in_range(pt.x as int, m.min_lon as int, m.max_lon as int, m.width as int);
    lemma_scale_in_range(pt.y as int, m.min_lat as int, m.max_lat as int, m.height as int);
}

/// A value between the ends of a scale falls between nothing and the size of the scale.
pub proof fn lemma_scale_in_range(v: int, lo: int, hi: int, size: int)
    requires
        lo <= v <= hi,
        size >= 0,
    ensures
        0 <= scale(v, lo, hi, size) <= size,
{
    if hi != lo {
        let d = hi - lo;
        let num = size * (v - lo);
        lemma_mul_nonnegative(size, v - lo);
        assert(num <= size * d) by (nonlinear_arith)
            requires
                num == size * (v - lo),
                v - lo <= d,
                size >= 0,
        ;
        lemma_div_pos_is_pos(num, d);
        lemma_div_is_ordered(num, size * d, d);
        assert((size * d) / d == size) by (nonlinear_arith)
            requires
                d > 0,
        ;
    }
}

} // verus!
