//! Points and polylines on an integer grid, and their lengths.
//!
//! A planar point is held in centimetres. A length is the sum, over the segments of a polyline,
//! of the whole number of centimetres that fit into each segment.

use vstd::prelude::*;

verus! {

/// A point on the integer grid.
#[derive(Clone, Copy, Debug, PartialEq, Eq, Structural, Hash)]
pub struct Pt {
    pub x: i32,
    pub y: i32,
}

/// `r` is the integer square root of `n`: the largest number whose square is at most `n`.
pub open spec fn is_isqrt(n: nat, r: nat) -> bool {
    r * r <= n && n < (r + 1) * (r + 1)
}

/// The integer square root of `n`.
pub open spec fn isqrt(n: nat) -> nat
    decreases n,
{
    if n == 0 {
        0
    } else {
        let r = isqrt((n - 1) as nat);
        if (r + 1) * (r + 1) <= n {
            r + 1
        } else {
            r
        }
    }
}

/// `isqrt` gives the integer square root.
pub proof fn lemma_isqrt(n: nat)
    ensures
        is_isqrt(n, isqrt(n)),
    decreases n,
{
    if n > 0 {
        lemma_isqrt((n - 1) as nat);
        let r = isqrt((n - 1) as nat);
        let q = isqrt(n);
        if (r + 1) * (r + 1) <= n {
            assert(q == r + 1);
            assert(n < (q + 1) * (q + 1)) by (nonlinear_arith)
                requires
                    q == r + 1,
                    n - 1 < (r + 1) * (r + 1),
            ;
            assert(q * q <= n);
        } else {
            assert(q == r);
            assert(q * q <= n);
            assert(n < (q + 1) * (q + 1));
        }
    } else {
        assert(isqrt(n) == 0);
        assert(is_isqrt(0, 0)) by (nonlinear_arith);
    }
}

/// A number has one integer square root only.
pub proof fn lemma_isqrt_unique(n: nat, a: nat, b: nat)
    requires
        is_isqrt(n, a),
        is_isqrt(n, b),
    ensures
        a == b,
{
    if a < b {
        assert((a + 1) * (a + 1) <= b * b) by (nonlinear_arith)
            requires
                a + 1 <= b,
        ;
    }
    if b < a {
        assert((b + 1) * (b + 1) <= a * a) by (nonlinear_arith)
            requires
                b + 1 <= a,
        ;
    }
}

/// The square of the distance between two points.
pub open spec fn dist2(a: Pt, b: Pt) -> nat {
    ((a.x - b.x) * (a.x - b.x) + (a.y - b.y) * (a.y - b.y)) as nat
}

/// The length of the segment between two points, rounded down to a whole number.
pub open spec fn segment_length(a: Pt, b: Pt) -> nat {
    isqrt(dist2(a, b))
}

/// The length of a polyline: the sum of the lengths of its segments.
pub open spec fn line_length(line: Seq<Pt>) -> nat
    decreases line.len(),
{
    if line.len() < 2 {
        0
    } else {
        line_length(line.drop_last()) + segment_length(line[line.len() - 2], line.last())
    }
}

/// Computes the integer square root of `n`.
pub fn integer_sqrt(n: u128) -> (r: u64)
    ensures
        r == isqrt(n as nat),
{
    let mut lo: u128 = 0;
    let mut hi: u128 = 0x1_0000_0000_0000_0000;
    assert(0x1_0000_0000_0000_0000u128 * 0x1_0000_0000_0000_0000u128
        == 0x1_0000_0000_0000_0000_0000_0000_0000_0000int) by (nonlinear_arith);
    while hi - lo > 1
        invariant
            lo < hi <= 0x1_0000_0000_0000_0000,
            lo * lo <= n,
            n < hi * hi,
        decreases hi - lo,
    {
        let mid: u128 = lo + (hi - lo) / 2;
        assert(mid * mid < 0x1_0000_0000_0000_0000_0000_0000_0000_0000) by (nonlinear_arith)
            requires
                0 <= mid < 0x1_0000_0000_0000_0000,
        ;
        if mid * mid <= n {
            lo = mid;
        } else {
            hi = mid;
        }
    }
    proof {
        lemma_isqrt(n as nat);
        lemma_isqrt_unique(n as nat, lo as nat, isqrt(n as nat));
    }
    lo as u64
}

/// The squared distance between two points never leaves 65 bits.
pub proof fn lemma_dist2_bound(a: Pt, b: Pt)
    ensures
        dist2(a, b) < 0x2_0000_0000_0000_0000,
        dist2(a, b) == (a.x - b.x) * (a.x - b.x) + (a.y - b.y) * (a.y - b.y),
{
    let dx = a.x - b.x;
    let dy = a.y - b.y;
    assert(0 <= dx * dx < 0x1_0000_0000_0000_0000) by (nonlinear_arith)
        requires
            -0x1_0000_0000 < dx < 0x1_0000_0000,
    ;
    assert(0 <= dy * dy < 0x1_0000_0000_0000_0000) by (nonlinear_arith)
        requires
            -0x1_0000_0000 < dy < 0x1_0000_0000,
    ;
}

/// The square of the distance between two points.
pub fn squared_distance(a: Pt, b: Pt) -> (d: u128)
    ensures
        d == dist2(a, b),
{
    proof {
        lemma_dist2_bound(a, b);
    }
    let dx: i64 = a.x as i64 - b.x as i64;
    let dy: i64 = a.y as i64 - b.y as i64;
    let ax: u128 = (if dx < 0 {
        -dx
    } else {
        dx
    }) as u128;
    let ay: u128 = (if dy < 0 {
        -dy
    } else {
        dy
    }) as u128;
    assert(ax * ax == dx * dx) by (nonlinear_arith)
        requires
            ax == dx || ax == -dx,
    ;
    assert(ay * ay == dy * dy) by (nonlinear_arith)
        requires
            ay == dy || ay == -dy,
    ;
    ax * ax + ay * ay
}

/// The length of the segment between two points, rounded down.
pub fn segment_len(a: Pt, b: Pt) -> (len: u64)
    ensures
        len == segment_length(a, b),
        len < 0x2_0000_0000,
{
    proof {
        lemma_dist2_bound(a, b);
        lemma_isqrt(dist2(a, b));
        let r = isqrt(dist2(a, b));
        if r >= 0x2_0000_0000 {
            assert(r * r >= 0x4_0000_0000_0000_0000) by (nonlinear_arith)
                requires
                    r >= 0x2_0000_0000,
            ;
        }
    }
    integer_sqrt(squared_distance(a, b))
}

/// What is left of a length that does not fit into 64 bits: the largest number that does.
pub open spec fn clamp_u64(n: nat) -> u64 {
    if n <= u64::MAX {
        n as u64
    } else {
        u64::MAX
    }
}

/// The length of a polyline. A length that does not fit into 64 bits comes out as `u64::MAX`.
pub fn polyline_length(line: &Vec<Pt>) -> (len: u64)
    ensures
        len == clamp_u64(line_length(line@)),
{
    let mut total: u64 = 0;
    if line.len() < 2 {
        return 0;
    }
    let mut i: usize = 1;
    assert(line@.take(1).len() < 2);
    while i < line.len()
        invariant
            1 <= i <= line@.len(),
            total == clamp_u64(line_length(line@.take(i as int))),
        decreases line.len() - i,
    {
        let seg = segment_len(line[i - 1], line[i]);
        proof {
            let next = line@.take(i + 1);
            assert(next.drop_last() =~= line@.take(i as int));
            assert(next[next.len() - 2] == line@[i - 1]);
            assert(next.last() == line@[i as int]);
        }
        total = total.saturating_add(seg);
        i += 1;
    }
    assert(line@.take(i as int) =~= line@);
    total
}

/// A copy of the points.
pub fn copy_points(pts: &Vec<Pt>) -> (copy: Vec<Pt>)
    ensures
        copy@ == pts@,
{
    let mut copy: Vec<Pt> = Vec::new();
    let mut i: usize = 0;
    while i < pts.len()
        invariant
            i <= pts@.len(),
            copy@ == pts@.take(i as int),
        decreases pts@.len() - i,
    {
        copy.push(pts[i]);
        assert(copy@ =~= pts@.take(i + 1));
        i += 1;
    }
    assert(pts@.take(i as int) =~= pts@);
    copy
}

/// The length of two polylines joined at a shared point is the sum of their lengths.
pub proof fn lemma_length_concat(a: Seq<Pt>, b: Seq<Pt>)
    requires
        a.len() >= 1,
        b.len() >= 1,
        a.last() == b[0],
    ensures
        line_length(a + b.skip(1)) == line_length(a) + line_length(b),
    decreases b.len(),
{
    if b.len() == 1 {
        assert(a + b.skip(1) =~= a);
    } else {
        let joined = a + b.skip(1);
        assert(joined.drop_last() =~= a + b.drop_last().skip(1));
        assert(b.drop_last()[0] == b[0]);
        lemma_length_concat(a, b.drop_last());
        assert(joined.last() == b.last());
        if b.len() == 2 {
            assert(joined[joined.len() - 2] == a.last());
            assert(b[b.len() - 2] == b[0]);
            assert(line_length(b.drop_last()) == 0);
        } else {
            assert(joined[joined.len() - 2] == b[b.len() - 2]);
        }
    }
}

} // verus!
