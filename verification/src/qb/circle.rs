//! The integer half of CIRCLE: the offsets of a Bresenham circle.

use vstd::prelude::*;

verus! {

/// The eight reflections of (x, y) that an eight way symmetric circle
/// plots, in the order they are plotted.
pub open spec fn octants(x: int, y: int) -> Seq<(int, int)> {
    seq![(x, y), (-x, y), (x, -y), (-x, -y), (y, x), (-y, x), (y, -x), (-y, -x)]
}

/// The offsets the midpoint circle plots from the step at (x, y) with
/// decision value d onwards.
pub open spec fn bresenham_from(x: int, y: int, d: int) -> Seq<(int, int)>
    decreases y - x + 2,
{
    if x > y || x < 0 {
        seq![]
    } else if d < 0 {
        octants(x, y) + bresenham_from(x + 1, y, d + 4 * x + 6)
    } else {
        octants(x, y) + bresenham_from(x + 1, y - 1, d + 4 * (x - y) + 10)
    }
}

/// The offsets of the eight way symmetric Bresenham circle of radius r.
pub open spec fn bresenham_spec(r: int) -> Seq<(int, int)> {
    bresenham_from(0, r, 3 - 2 * r)
}

pub open spec fn as_ints(s: Seq<(i32, i32)>) -> Seq<(int, int)> {
    s.map_values(|p: (i32, i32)| (p.0 as int, p.1 as int))
}

/// Whether a value fits QBasic's 32-bit arithmetic.
pub open spec fn in_i32(v: int) -> bool {
    i32::MIN <= v <= i32::MAX
}

/// Every sum the circle's steps compute from (x, y) with decision value d
/// on fits 32 bits: `4 * x + 6` and `d + 4 * x + 6` on a step along, or
/// `x - y`, `4 * (x - y) + 10`, `d + 4 * (x - y) + 10` and `y - 1` on a step
/// in, and `x + 1` on either.
pub open spec fn bresenham_fits(x: int, y: int, d: int) -> bool
    decreases y - x + 2,
{
    if x > y || x < 0 {
        true
    } else if d < 0 {
        &&& in_i32(4 * x)
        &&& in_i32(4 * x + 6)
        &&& in_i32(d + 4 * x + 6)
        &&& in_i32(x + 1)
        &&& bresenham_fits(x + 1, y, d + 4 * x + 6)
    } else {
        &&& in_i32(x - y)
        &&& in_i32(4 * (x - y))
        &&& in_i32(4 * (x - y) + 10)
        &&& in_i32(d + 4 * (x - y) + 10)
        &&& in_i32(y - 1)
        &&& in_i32(x + 1)
        &&& bresenham_fits(x + 1, y - 1, d + 4 * (x - y) + 10)
    }
}

/// The circle of radius r can be computed in 32-bit arithmetic: `3 - 2 * r`
/// fits, and so does every step. This holds for radii from -1073741822 up
/// to about 2^29.
pub open spec fn circle_fits(r: int) -> bool {
    in_i32(2 * r) && in_i32(3 - 2 * r) && bresenham_fits(0, r, 3 - 2 * r)
}

/// The offsets of an eight way symmetric Bresenham circle of radius r.
/// Duplicates where the octants meet are harmless, because `pset` is
/// idempotent.
pub fn bresenham_circle(r: i32) -> (out: Vec<(i32, i32)>)
    requires
        circle_fits(r as int),
    ensures
        as_ints(out@) == bresenham_spec(r as int),
{
    match try_bresenham_circle(r) {
        Some(out) => out,
        None => Vec::new(),
    }
}

/// The circle of radius r, or `None` where its 32-bit arithmetic would
/// overflow.
pub fn try_bresenham_circle(r: i32) -> (out: Option<Vec<(i32, i32)>>)
    ensures
        out is None <==> !circle_fits(r as int),
        out matches Some(v) ==> as_ints(v@) == bresenham_spec(r as int),
{
    let r64: i64 = r as i64;
    if 2 * r64 < i32::MIN as i64 || 2 * r64 > i32::MAX as i64 || 3 - 2 * r64 < i32::MIN as i64 || 3
        - 2 * r64 > i32::MAX as i64 {
        return None;
    }
    let mut out: Vec<(i32, i32)> = Vec::new();
    let mut x: i64 = 0;
    let mut y: i64 = r64;
    let mut d: i64 = 3 - 2 * r64;
    while x <= y
        invariant
            0 <= x,
            y <= r64,
            r64 == r,
            in_i32(x as int),
            in_i32(y as int),
            in_i32(d as int),
            circle_fits(r as int) == bresenham_fits(x as int, y as int, d as int),
            as_ints(out@) + bresenham_from(x as int, y as int, d as int) == bresenham_spec(
                r as int,
            ),
        decreases y - x + 2,
    {
        let ghost before = out@;
        let ghost (gx, gy, gd) = (x as int, y as int, d as int);
        let xi: i32 = x as i32;
        let yi: i32 = y as i32;
        out.push((xi, yi));
        out.push((-xi, yi));
        out.push((xi, -yi));
        out.push((-xi, -yi));
        out.push((yi, xi));
        out.push((-yi, xi));
        out.push((yi, -xi));
        out.push((-yi, -xi));
        assert(as_ints(out@) =~= as_ints(before) + octants(gx, gy));
        if x + 1 > i32::MAX as i64 {
            return None;
        }
        if d < 0 {
            let nd: i64 = d + 4 * x + 6;
            if 4 * x + 6 > i32::MAX as i64 || nd < i32::MIN as i64 || nd > i32::MAX as i64 {
                return None;
            }
            d = nd;
        } else {
            let nd: i64 = d + 4 * (x - y) + 10;
            if 4 * (x - y) < i32::MIN as i64 || 4 * (x - y) + 10 > i32::MAX as i64 || nd
                < i32::MIN as i64 || nd > i32::MAX as i64 {
                return None;
            }
            d = nd;
            y = y - 1;
        }
        x = x + 1;
        assert(bresenham_from(gx, gy, gd) == octants(gx, gy) + bresenham_from(
            x as int,
            y as int,
            d as int,
        ));
        assert(as_ints(out@) + bresenham_from(x as int, y as int, d as int) =~= as_ints(before)
            + bresenham_from(gx, gy, gd));
    }
    assert(as_ints(out@) + bresenham_from(x as int, y as int, d as int) =~= as_ints(out@));
    Some(out)
}

/// The decision value the circle steps carry: twice the squared distance
/// of the midpoint below the next step, less twice r squared.
pub open spec fn circle_decision(x: int, y: int, r: int) -> int {
    2 * (x + 1) * (x + 1) + y * y + (y - 1) * (y - 1) - 2 * r * r
}

proof fn lemma_octant_points_near_circle(x: int, y: int, d: int, r: int)
    requires
        0 <= x,
        y <= r,
        d == circle_decision(x, y, r),
        d % 2 == 1,
        d >= 4 * x - 4 * y + 3,
        x <= y ==> d <= 4 * x + 3,
    ensures
        forall|i: int|
            0 <= i < bresenham_from(x, y, d).len() ==> -r <= #[trigger] bresenham_from(x, y, d)[i].0
                * bresenham_from(x, y, d)[i].0 + bresenham_from(x, y, d)[i].1 * bresenham_from(
                x,
                y,
                d,
            )[i].1 - r * r <= r,
    decreases y - x + 2,
{
    if x <= y {
        let e = x * x + y * y - r * r;
        assert(2 * e == d - 4 * x - 3 + 2 * y) by (nonlinear_arith)
            requires
                d == 2 * (x + 1) * (x + 1) + y * y + (y - 1) * (y - 1) - 2 * r * r,
                e == x * x + y * y - r * r,
        ;
        assert(-r <= e <= r);
        let (nx, ny, nd) = if d < 0 {
            (x + 1, y, d + 4 * x + 6)
        } else {
            (x + 1, y - 1, d + 4 * (x - y) + 10)
        };
        assert(nd == circle_decision(nx, ny, r)) by (nonlinear_arith)
            requires
                d == 2 * (x + 1) * (x + 1) + y * y + (y - 1) * (y - 1) - 2 * r * r,
                (nx, ny, nd) == (if d < 0 {
                    (x + 1, y, d + 4 * x + 6)
                } else {
                    (x + 1, y - 1, d + 4 * (x - y) + 10)
                }),
        {
            if d < 0 {
                assert(nd == 2 * (x + 2) * (x + 2) + y * y + (y - 1) * (y - 1) - 2 * r * r);
            } else {
                assert(nd == 2 * (x + 2) * (x + 2) + (y - 1) * (y - 1) + (y - 2) * (y - 2) - 2 * r * r);
            }
        }
        lemma_octant_points_near_circle(nx, ny, nd, r);
        let rest = bresenham_from(nx, ny, nd);
        let all = bresenham_from(x, y, d);
        assert(all == octants(x, y) + rest);
        assert forall|i: int| 0 <= i < all.len() implies -r <= #[trigger] all[i].0 * all[i].0 + all[i].1
            * all[i].1 - r * r <= r by {
            if i >= 8 {
                assert(all[i] == rest[i - 8]);
            } else {
                let p = octants(x, y)[i];
                assert(all[i] == p);
                assert(p.0 * p.0 + p.1 * p.1 == x * x + y * y) by (nonlinear_arith)
                    requires
                        p == (x, y) || p == (-x, y) || p == (x, -y) || p == (-x, -y) || p == (y, x)
                            || p == (-y, x) || p == (y, -x) || p == (-y, -x),
                ;
            }
        }
    }
}

/// Every offset of the circle lies near it: its squared distance from the
/// centre is within r of r squared. So the offsets make a round circle of
/// radius r, not merely a shape inside the square of side 2r.
pub proof fn law_circle_points_lie_near_the_circle(r: int)
    requires
        0 <= r,
    ensures
        forall|i: int|
            0 <= i < bresenham_spec(r).len() ==> -r <= #[trigger] bresenham_spec(r)[i].0
                * bresenham_spec(r)[i].0 + bresenham_spec(r)[i].1 * bresenham_spec(r)[i].1 - r * r
                <= r,
{
    assert(circle_decision(0, r, r) == 3 - 2 * r) by (nonlinear_arith);
    assert((3 - 2 * r) % 2 == 1);
    lemma_octant_points_near_circle(0, r, 3 - 2 * r, r);
}

/// Every offset of the circle lies within r of the centre on both axes.
pub proof fn law_circle_within_radius(r: int)
    requires
        0 <= r,
    ensures
        forall|i: int|
            0 <= i < bresenham_spec(r).len() ==> -r <= #[trigger] bresenham_spec(r)[i].0 <= r
                && -r <= bresenham_spec(r)[i].1 <= r,
{
    lemma_bresenham_from_within(0, r, 3 - 2 * r, r);
}

proof fn lemma_bresenham_from_within(x: int, y: int, d: int, r: int)
    requires
        0 <= x,
        y <= r,
    ensures
        forall|i: int|
            0 <= i < bresenham_from(x, y, d).len() ==> -r <= #[trigger] bresenham_from(x, y, d)[i].0
                <= r && -r <= bresenham_from(x, y, d)[i].1 <= r,
    decreases y - x + 2,
{
    if x > y || x < 0 {
    } else if d < 0 {
        lemma_bresenham_from_within(x + 1, y, d + 4 * x + 6, r);
        let rest = bresenham_from(x + 1, y, d + 4 * x + 6);
        assert(bresenham_from(x, y, d) == octants(x, y) + rest);
        assert forall|i: int| 0 <= i < bresenham_from(x, y, d).len() implies -r
            <= #[trigger] bresenham_from(x, y, d)[i].0 <= r && -r <= bresenham_from(x, y, d)[i].1
            <= r by {
            if i >= 8 {
                assert(bresenham_from(x, y, d)[i] == rest[i - 8]);
            }
        }
    } else {
        lemma_bresenham_from_within(x + 1, y - 1, d + 4 * (x - y) + 10, r);
        let rest = bresenham_from(x + 1, y - 1, d + 4 * (x - y) + 10);
        assert(bresenham_from(x, y, d) == octants(x, y) + rest);
        assert forall|i: int| 0 <= i < bresenham_from(x, y, d).len() implies -r
            <= #[trigger] bresenham_from(x, y, d)[i].0 <= r && -r <= bresenham_from(x, y, d)[i].1
            <= r by {
            if i >= 8 {
                assert(bresenham_from(x, y, d)[i] == rest[i - 8]);
            }
        }
    }
}

} // verus!
