//! The mathematical model of a one-dimensional interpolant and the
//! evaluation it defines.
use vstd::prelude::*;

use crate::fixed::{
    clamp_between, floor_div, saturate, trunc_div, wide, COORD_LIMIT, FREE_LIMIT, PRODUCT_LIMIT, SCALE,
    VALUE_LIMIT,
};
use crate::interpolation::{arity_mismatch, AffineMap, ConstructionError, FreeVariables, Point};

verus! {

/// The mathematical content of an [`Interpolant1D`].
pub struct InterpolantModel {
    /// The samples, sorted by x.
    pub points: Seq<Point>,
    /// One map per segment between consecutive samples.
    pub maps: Seq<AffineMap>,
    /// `last.x - first.x`, the common denominator of the maps.
    pub range: int,
    /// The refinement budget of one evaluation.
    pub iterations: nat,
}

pub open spec fn sorted_by_x(p: Seq<Point>) -> bool {
    forall|i: int, j: int| 0 <= i <= j < p.len() ==> p[i].x <= p[j].x
}

/// Sorted by x, and by y among equal x: with a given multiset of points this
/// order is unique.
pub open spec fn sorted_by_x_then_y(p: Seq<Point>) -> bool {
    forall|i: int, j: int|
        0 <= i <= j < p.len() ==> (p[i].x < p[j].x || (p[i].x == p[j].x && p[i].y <= p[j].y))
}

/// Within the range where the map coefficients and every step of evaluation
/// are exact, with no saturation.
pub open spec fn coordinate_in_range(v: int) -> bool {
    -COORD_LIMIT <= v <= COORD_LIMIT
}

pub open spec fn point_in_range(p: Point) -> bool {
    coordinate_in_range(p.x as int) && coordinate_in_range(p.y as int)
}

pub open spec fn free_in_range(d: int) -> bool {
    -FREE_LIMIT <= d <= FREE_LIMIT
}

/// Width of segment `i`: the numerator of `a`.
pub open spec fn width(p: Seq<Point>, i: int) -> int {
    p[i + 1].x - p[i].x
}

/// `last.x * p[i].x - first.x * p[i+1].x`: the numerator of `e`, saturated
/// to the wide range.
pub open spec fn shift(p: Seq<Point>, i: int) -> int {
    wide(p.last().x * p[i].x - p[0].x * p[i + 1].x)
}

/// `(p[i+1].y - p[i].y) - d (last.y - first.y)`, scaled: the numerator of `c`,
/// saturated to the wide range.
pub open spec fn slope(p: Seq<Point>, i: int, d: int) -> int {
    wide((p[i + 1].y - p[i].y) * SCALE - d * (p.last().y - p[0].y))
}

/// `(last.x p[i].y - first.x p[i+1].y) - d (last.x first.y - first.x last.y)`,
/// scaled: the numerator of `f`, each partial result saturated to the wide range.
pub open spec fn offset(p: Seq<Point>, i: int, d: int) -> int {
    let cross = wide(p.last().x * p[i].y - p[0].x * p[i + 1].y);
    let cross_ends = wide(p.last().x * p[0].y - p[0].x * p.last().y);
    wide(wide(cross * SCALE) - wide(d * cross_ends))
}

/// `m` is the map of segment `i` of `p`, with contraction factor `m.d`.
pub open spec fn map_of_segment(m: AffineMap, p: Seq<Point>, i: int) -> bool {
    &&& m.a == width(p, i)
    &&& m.e == shift(p, i)
    &&& m.c == slope(p, i, m.d as int)
    &&& m.f == offset(p, i, m.d as int)
    &&& m.end_x == p[i + 1].x
}

/// Number of maps among the first `n` whose right endpoint is at most `x`.
pub open spec fn count_ending_by(maps: Seq<AffineMap>, x: int, n: nat) -> int
    decreases n,
{
    if n == 0 {
        0
    } else {
        count_ending_by(maps, x, (n - 1) as nat) + if maps[n - 1].end_x <= x {
            1int
        } else {
            0int
        }
    }
}

impl InterpolantModel {
    pub open spec fn first(self) -> Point {
        self.points[0]
    }

    pub open spec fn last(self) -> Point {
        self.points.last()
    }

    pub open spec fn wf(self) -> bool {
        &&& self.points.len() >= 2
        &&& sorted_by_x(self.points)
        &&& self.maps.len() == self.points.len() - 1
        &&& self.range == self.last().x - self.first().x
        &&& forall|i: int|
            0 <= i < self.maps.len() ==> map_of_segment(#[trigger] self.maps[i], self.points, i)
    }

    /// Every coordinate lies within `COORD_LIMIT` and every factor within
    /// `FREE_LIMIT`: then no map coefficient and no step of an evaluation at a
    /// sample saturates.
    pub open spec fn within_exact_range(self) -> bool {
        &&& forall|i: int| 0 <= i < self.points.len() ==> point_in_range(#[trigger] self.points[i])
        &&& forall|i: int| 0 <= i < self.maps.len() ==> free_in_range(#[trigger] self.maps[i].d as int)
    }

    /// The segment that holds `x`: the number of maps that end at or before it.
    pub open spec fn segment(self, x: int) -> int {
        count_ending_by(self.maps, x, self.maps.len())
    }

    /// Pre-image of `x` under the map of its segment, kept within
    /// `[first.x, last.x)` (where, without saturation, it lies already).
    pub open spec fn pre_image(self, x: int) -> int {
        let m = self.maps[self.segment(x)];
        clamp_between(
            floor_div(wide(x * self.range - m.e), m.a as int),
            self.first().x as int,
            self.last().x - 1,
        )
    }

    /// What the map of the segment of `x` adds at the pre-image `xp`.
    pub open spec fn term(self, x: int, xp: int) -> int {
        let m = self.maps[self.segment(x)];
        floor_div(wide(wide(m.c * xp) + m.f), self.range * SCALE)
    }

    /// The accumulated value after `rounds` more refinement rounds from the
    /// query `x`, the product of contraction factors so far and the value so far.
    pub open spec fn refine(self, x: int, product: int, acc: int, rounds: nat) -> int
        decreases rounds,
    {
        if rounds == 0 {
            acc
        } else {
            let xp = self.pre_image(x);
            let acc2 = saturate(
                acc + floor_div(wide(product * self.term(x, xp)), SCALE as int),
                VALUE_LIMIT as int,
            );
            let d = self.maps[self.segment(x)].d as int;
            let product2 = saturate(trunc_div(product * d, SCALE as int), PRODUCT_LIMIT as int);
            self.refine(xp, product2, acc2, (rounds - 1) as nat)
        }
    }

    /// The value at `x` with a budget of `rounds` refinement rounds: the end
    /// values outside the sampled interval, the refined sum inside it.
    pub open spec fn value_with(self, x: int, rounds: nat) -> int {
        if x <= self.first().x {
            self.first().y as int
        } else if x >= self.last().x {
            self.last().y as int
        } else {
            self.refine(x, SCALE as int, 0, rounds)
        }
    }

    pub open spec fn value_at(self, x: int) -> int {
        self.value_with(x, self.iterations)
    }
}

pub open spec fn strictly_sorted_by_x(p: Seq<Point>) -> bool {
    forall|i: int, j: int| 0 <= i < j < p.len() ==> p[i].x < p[j].x
}

/// The error that building from `points` and `fv` meets (the first that
/// applies, in this order), or `None` when it succeeds.
pub open spec fn construction_error(points: Seq<Point>, fv: FreeVariables) -> Option<
    ConstructionError,
> {
    if points.len() < 2 {
        Some(ConstructionError::InsufficientPoints)
    } else if arity_mismatch(fv, points.len() as int) {
        Some(ConstructionError::FreeVariableArityMismatch)
    } else {
        None
    }
}

} // verus!
