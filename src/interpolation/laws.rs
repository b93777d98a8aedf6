//! Lemmas about the model: the arithmetic bounds that evaluation relies on,
//! and the laws that interpolants obey.
use vstd::prelude::*;

use crate::fixed::{floor_div, saturate, trunc_div, wide, COORD_LIMIT, FREE_LIMIT, PRODUCT_LIMIT, SCALE, VALUE_LIMIT};
use crate::interpolation::model::{
    count_ending_by, free_in_range, map_of_segment, point_in_range, sorted_by_x_then_y,
    strictly_sorted_by_x,
    InterpolantModel,
};
use crate::interpolation::{AffineMap, Point};
use vstd::arithmetic::power::pow;

verus! {

/// `|a * b| <= bound_a * bound_b` for `|a| <= bound_a` and `|b| <= bound_b`.
pub(crate) proof fn lemma_mul_bound(a: int, b: int, bound_a: int, bound_b: int)
    requires
        -bound_a <= a <= bound_a,
        -bound_b <= b <= bound_b,
    ensures
        -(bound_a * bound_b) <= a * b <= bound_a * bound_b,
{
    assert(-(bound_a * bound_b) <= a * b <= bound_a * bound_b) by (nonlinear_arith)
        requires
            -bound_a <= a <= bound_a,
            -bound_b <= b <= bound_b,
    ;
}

/// A product of two `i64` values fits well within `i128`.
pub(crate) proof fn lemma_i64_product(a: i64, b: i64)
    ensures
        -0x4000_0000_0000_0000_0000_0000_0000_0000 <= a * b <= 0x4000_0000_0000_0000_0000_0000_0000_0000,
{
    lemma_mul_bound(a as int, b as int, 0x8000_0000_0000_0000, 0x8000_0000_0000_0000);
}

/// A quotient rounded down is no larger in magnitude than `bound / low + 1`.
pub(crate) proof fn lemma_floor_div_bound(a: int, b: int, bound: int, low: int)
    requires
        -bound <= a <= bound,
        b >= low > 0,
    ensures
        -(bound / low) - 1 <= floor_div(a, b) <= bound / low,
{
    assert(-(bound / low) - 1 <= a / b <= bound / low) by (nonlinear_arith)
        requires
            -bound <= a <= bound,
            b >= low > 0,
    {
        assert(bound >= 0);
        if a >= 0 {
            assert(a / b <= a / low) by {
                vstd::arithmetic::div_mod::lemma_div_is_ordered_by_denominator(a, low, b);
            }
            vstd::arithmetic::div_mod::lemma_div_is_ordered(a, bound, low);
            vstd::arithmetic::div_mod::lemma_div_pos_is_pos(a, b);
        } else {
            vstd::arithmetic::div_mod::lemma_fundamental_div_mod(a, b);
            vstd::arithmetic::div_mod::lemma_fundamental_div_mod(bound, low);
            assert(a / b >= -(bound / low) - 1) by (nonlinear_arith)
                requires
                    a < 0,
                    -bound <= a,
                    b >= low > 0,
                    a == b * (a / b) + a % b,
                    0 <= a % b < b,
                    bound == low * (bound / low) + bound % low,
                    0 <= bound % low < low,
            ;
            assert(a / b < 0) by (nonlinear_arith)
                requires
                    a < 0,
                    b > 0,
                    a == b * (a / b) + a % b,
                    0 <= a % b < b,
            ;
            assert(bound / low >= 0) by (nonlinear_arith)
                requires
                    bound >= 0,
                    low > 0,
            ;
        }
    }
}

/// The count of maps ending at or before `x` is the index that splits them.
pub(crate) proof fn lemma_count_split(maps: Seq<AffineMap>, x: int, n: nat, k: int)
    requires
        0 <= k <= n <= maps.len(),
        forall|j: int| 0 <= j < k ==> #[trigger] maps[j].end_x <= x,
        forall|j: int| k <= j < n ==> #[trigger] maps[j].end_x > x,
    ensures
        count_ending_by(maps, x, n) == k,
    decreases n,
{
    if n > 0 {
        if k == n {
            lemma_count_split(maps, x, (n - 1) as nat, k - 1);
        } else {
            lemma_count_split(maps, x, (n - 1) as nat, k);
        }
    }
}

impl InterpolantModel {
    /// Within the exact range the numerators of every map are the exact
    /// formulas, and bounded.
    pub(crate) proof fn lemma_coefficient_bounds(self, i: int)
        requires
            self.wf(),
            self.within_exact_range(),
            0 <= i < self.maps.len(),
        ensures
            self.maps[i].e == self.points.last().x * self.points[i].x - self.points[0].x
                * self.points[i + 1].x,
            self.maps[i].c == (self.points[i + 1].y - self.points[i].y) * SCALE - self.maps[i].d * (
            self.points.last().y - self.points[0].y),
            self.maps[i].f == (self.points.last().x * self.points[i].y - self.points[0].x
                * self.points[i + 1].y) * SCALE - self.maps[i].d * (self.points.last().x
                * self.points[0].y - self.points[0].x * self.points.last().y),
            -0x800_0000_0000 <= self.maps[i].a <= 0x800_0000_0000,
            -0x20_0000_0000_0000_0000_0000 <= self.maps[i].e <= 0x20_0000_0000_0000_0000_0000,
            -0x1000_0000_0000_0000_0000 <= self.maps[i].c <= 0x1000_0000_0000_0000_0000,
            -0x40_0000_0000_0000_0000_0000_0000_0000 <= self.maps[i].f
                <= 0x40_0000_0000_0000_0000_0000_0000_0000,
    {
        let p = self.points;
        let n = p.len() - 1;
        let m = self.maps[i];
        let ghost lim = COORD_LIMIT as int;
        assert(point_in_range(p[0]));
        assert(point_in_range(p[n]));
        assert(point_in_range(p[i]));
        assert(point_in_range(p[i + 1]));
        assert(map_of_segment(self.maps[i], p, i));
        let d = m.d as int;
        assert(free_in_range(self.maps[i].d as int));
        lemma_mul_bound(p[n].x as int, p[i].x as int, lim, lim);
        lemma_mul_bound(p[0].x as int, p[i + 1].x as int, lim, lim);
        lemma_mul_bound(p[n].x as int, p[i].y as int, lim, lim);
        lemma_mul_bound(p[0].x as int, p[i + 1].y as int, lim, lim);
        lemma_mul_bound(p[n].x as int, p[0].y as int, lim, lim);
        lemma_mul_bound(p[0].x as int, p[n].y as int, lim, lim);
        let dy = p[i + 1].y - p[i].y;
        let dy_all = p[n].y - p[0].y;
        lemma_mul_bound(dy, SCALE as int, 2 * lim, SCALE as int);
        lemma_mul_bound(d, dy_all, FREE_LIMIT as int, 2 * lim);
        let cross_y = p[n].x * p[i].y - p[0].x * p[i + 1].y;
        let cross_0 = p[n].x * p[0].y - p[0].x * p[n].y;
        lemma_mul_bound(cross_y, SCALE as int, 2 * lim * lim, SCALE as int);
        lemma_mul_bound(d, cross_0, FREE_LIMIT as int, 2 * lim * lim);
    }

    /// While `x` lies in `[first.x, last.x)`, its segment is a map of positive
    /// width whose interval holds `x`, and the pre-image stays in that range.
    pub(crate) proof fn lemma_segment_of_interior(self, x: int)
        requires
            self.wf(),
            self.first().x <= x < self.last().x,
        ensures
            0 <= self.segment(x) < self.maps.len(),
            self.points[self.segment(x)].x <= x < self.points[self.segment(x) + 1].x,
            self.maps[self.segment(x)].a > 0,
            self.first().x <= self.pre_image(x) < self.last().x,
    {
        let p = self.points;
        let maps = self.maps;
        let n = maps.len() as int;
        self.lemma_maps_sorted();
        lemma_count_split_of_sorted(maps, x, maps.len());
        let k = self.segment(x);
        assert(map_of_segment(maps[n - 1], p, n - 1));
        assert(map_of_segment(maps[k], p, k));
        if k > 0 {
            assert(map_of_segment(maps[k - 1], p, k - 1));
        }
    }

    /// The right endpoints of the maps are sorted.
    pub(crate) proof fn lemma_maps_sorted(self)
        requires
            self.wf(),
        ensures
            forall|i: int, j: int|
                0 <= i <= j < self.maps.len() ==> self.maps[i].end_x <= self.maps[j].end_x,
    {
        assert forall|i: int, j: int| 0 <= i <= j < self.maps.len() implies self.maps[i].end_x
            <= self.maps[j].end_x by {
            assert(map_of_segment(self.maps[i], self.points, i));
            assert(map_of_segment(self.maps[j], self.points, j));
        }
    }
}

/// Over maps sorted by right endpoint, the count of those ending at or before
/// `x` splits them into those that do and those that do not.
proof fn lemma_count_split_of_sorted(maps: Seq<AffineMap>, x: int, n: nat)
    requires
        n <= maps.len(),
        forall|i: int, j: int| 0 <= i <= j < maps.len() ==> maps[i].end_x <= maps[j].end_x,
    ensures
        0 <= count_ending_by(maps, x, n) <= n,
        forall|j: int| 0 <= j < count_ending_by(maps, x, n) ==> #[trigger] maps[j].end_x <= x,
        forall|j: int| count_ending_by(maps, x, n) <= j < n ==> #[trigger] maps[j].end_x > x,
    decreases n,
{
    if n > 0 {
        lemma_count_split_of_sorted(maps, x, (n - 1) as nat);
        let k = count_ending_by(maps, x, (n - 1) as nat);
        if maps[n - 1].end_x <= x {
            assert forall|j: int| 0 <= j < n implies #[trigger] maps[j].end_x <= x by {
                assert(maps[j].end_x <= maps[n - 1].end_x);
            }
        }
    }
}


/// With a zero product every further round leaves the value as it is.
pub(crate) proof fn lemma_refine_zero_product(model: InterpolantModel, x: int, acc: int, rounds: nat)
    requires
        -VALUE_LIMIT <= acc <= VALUE_LIMIT,
    ensures
        model.refine(x, 0, acc, rounds) == acc,
    decreases rounds,
{
    if rounds > 0 {
        let xp = model.pre_image(x);
        let d = model.maps[model.segment(x)].d as int;
        assert(0 * model.term(x, xp) == 0);
        assert(0 * d == 0);
        lemma_refine_zero_product(model, xp, acc, (rounds - 1) as nat);
    }
}

impl InterpolantModel {
    /// At the left end of segment `i` the pre-image is the first x-coordinate,
    /// and the map there contributes `p[i].y` less `d` times the first y.
    proof fn lemma_sample_identities(self, i: int)
        requires
            self.wf(),
            self.within_exact_range(),
            0 <= i < self.maps.len(),
        ensures
            self.points[i].x * self.range - self.maps[i].e == self.first().x * self.maps[i].a,
            self.maps[i].c * self.first().x + self.maps[i].f == self.range * (SCALE
                * self.points[i].y - self.maps[i].d * self.first().y),
    {
        let p = self.points;
        let n = self.maps.len() as int;
        let m = self.maps[i];
        assert(map_of_segment(m, p, i));
        self.lemma_coefficient_bounds(i);
        let x0 = p[0].x as int;
        let y0 = p[0].y as int;
        let xn = p[n].x as int;
        let yn = p[n].y as int;
        let xi = p[i].x as int;
        let yi = p[i].y as int;
        let xj = p[i + 1].x as int;
        let yj = p[i + 1].y as int;
        let d = m.d as int;
        let s = SCALE as int;
        assert(xi * (xn - x0) - (xn * xi - x0 * xj) == x0 * (xj - xi)) by (nonlinear_arith);
        let sy = s * yi;
        let dy = d * y0;
        assert(((yj - yi) * s) * x0 + (xn * yi - x0 * yj) * s == (xn - x0) * sy) by (nonlinear_arith)
            requires
                sy == s * yi,
        ;
        assert((d * (yn - y0)) * x0 + d * (xn * y0 - x0 * yn) == (xn - x0) * dy) by (nonlinear_arith)
            requires
                dy == d * y0,
        ;
        assert((xn - x0) * (sy - dy) == (xn - x0) * sy - (xn - x0) * dy) by (nonlinear_arith);
        assert(((yj - yi) * s - d * (yn - y0)) * x0 == ((yj - yi) * s) * x0 - (d * (yn - y0)) * x0)
            by (nonlinear_arith);
    }

    /// Segment `i` is the one that holds the x-coordinate of its left end.
    proof fn lemma_segment_of_sample(self, i: int)
        requires
            self.wf(),
            strictly_sorted_by_x(self.points),
            0 <= i < self.maps.len(),
        ensures
            self.segment(self.points[i].x as int) == i,
    {
        let p = self.points;
        let x = p[i].x as int;
        assert forall|j: int| 0 <= j < i implies #[trigger] self.maps[j].end_x <= x by {
            assert(map_of_segment(self.maps[j], p, j));
        }
        assert forall|j: int| i <= j < self.maps.len() implies #[trigger] self.maps[j].end_x > x by {
            assert(map_of_segment(self.maps[j], p, j));
        }
        lemma_count_split(self.maps, x, self.maps.len(), i);
    }

    /// One refinement round from the left end of segment `i`.
    proof fn lemma_round_at_sample(self, i: int)
        requires
            self.wf(),
            self.within_exact_range(),
            strictly_sorted_by_x(self.points),
            0 <= i < self.maps.len(),
        ensures
            self.pre_image(self.points[i].x as int) == self.first().x,
            self.term(self.points[i].x as int, self.first().x as int) == floor_div(
                SCALE * self.points[i].y - self.maps[i].d * self.first().y,
                SCALE as int,
            ),
    {
        let p = self.points;
        self.lemma_segment_of_sample(i);
        self.lemma_sample_identities(i);
        assert(map_of_segment(self.maps[i], p, i));
        assert(self.range > 0) by {
            assert(p[0].x < p[p.len() - 1].x);
        }
        let a = self.maps[i].a as int;
        let x0 = p[0].x as int;
        let lim = COORD_LIMIT as int;
        assert(a > 0);
        self.lemma_coefficient_bounds(i);
        assert(point_in_range(p[0]));
        assert(point_in_range(p[i]));
        assert(point_in_range(p[i + 1]));
        lemma_mul_bound(x0, a, lim, 2 * lim);
        lemma_mul_bound(self.maps[i].c as int, x0, 0x1000_0000_0000_0000_0000, lim);
        vstd::arithmetic::div_mod::lemma_fundamental_div_mod_converse(x0 * a, a, x0, 0);
        let v = SCALE * p[i].y - self.maps[i].d * p[0].y;
        let s = SCALE as int;
        let r = self.range;
        vstd::arithmetic::div_mod::lemma_fundamental_div_mod(v, s);
        let q = v / s;
        let rem = v % s;
        assert(r * v == q * (r * s) + r * rem && 0 <= r * rem < r * s) by (nonlinear_arith)
            requires
                v == s * q + rem,
                0 <= rem < s,
                r > 0,
        ;
        vstd::arithmetic::div_mod::lemma_fundamental_div_mod_converse(r * v, r * s, q, r * rem);
    }

    /// With a first sample at height zero, rounds from the first x-coordinate
    /// add nothing.
    proof fn lemma_refine_at_first(self, product: int, acc: int, rounds: nat)
        requires
            self.wf(),
            self.within_exact_range(),
            strictly_sorted_by_x(self.points),
            self.first().y == 0,
            -VALUE_LIMIT <= acc <= VALUE_LIMIT,
        ensures
            self.refine(self.first().x as int, product, acc, rounds) == acc,
        decreases rounds,
    {
        if rounds > 0 {
            let x0 = self.first().x as int;
            self.lemma_round_at_sample(0);
            let y = self.points[0].y as int;
            assert(SCALE * y - self.maps[0].d * self.first().y == 0);
            assert(product * 0 == 0);
            let d = self.maps[self.segment(x0)].d as int;
            let product2 = saturate(trunc_div(product * d, SCALE as int), PRODUCT_LIMIT as int);
            self.lemma_refine_at_first(product2, acc, (rounds - 1) as nat);
        }
    }

    /// Under a factor below one in magnitude, a nonzero product loses at least
    /// one raw unit of magnitude in every round.
    proof fn lemma_product_shrinks(product: int, d: int)
        requires
            -SCALE < d < SCALE,
            -PRODUCT_LIMIT <= product <= PRODUCT_LIMIT,
            product != 0,
        ensures
            ({
                let next = saturate(trunc_div(product * d, SCALE as int), PRODUCT_LIMIT as int);
                &&& -PRODUCT_LIMIT <= next <= PRODUCT_LIMIT
                &&& (if product > 0 {
                    -product < next < product
                } else {
                    product < next < -product
                })
            }),
    {
        let s = SCALE as int;
        let v = product * d;
        if v >= 0 {
            assert(v < (if product > 0 { product } else { -product }) * s) by (nonlinear_arith)
                requires
                    v == product * d,
                    -s < d < s,
                    product != 0,
            ;
            vstd::arithmetic::div_mod::lemma_div_pos_is_pos(v, s);
            vstd::arithmetic::div_mod::lemma_fundamental_div_mod(v, s);
            assert(v / s < (if product > 0 { product } else { -product })) by (nonlinear_arith)
                requires
                    v == s * (v / s) + v % s,
                    0 <= v % s,
                    v < (if product > 0 { product } else { -product }) * s,
                    s > 0,
            ;
        } else {
            assert(-v < (if product > 0 { product } else { -product }) * s) by (nonlinear_arith)
                requires
                    v == product * d,
                    -s < d < s,
                    product != 0,
            ;
            vstd::arithmetic::div_mod::lemma_div_pos_is_pos(-v, s);
            vstd::arithmetic::div_mod::lemma_fundamental_div_mod(-v, s);
            assert((-v) / s < (if product > 0 { product } else { -product })) by (nonlinear_arith)
                requires
                    -v == s * ((-v) / s) + (-v) % s,
                    0 <= (-v) % s,
                    -v < (if product > 0 { product } else { -product }) * s,
                    s > 0,
            ;
        }
    }

    /// With every factor below one in magnitude, rounds beyond the magnitude
    /// of the product change nothing.
    proof fn lemma_refine_stable(self, x: int, product: int, acc: int, r1: nat, r2: nat)
        requires
            self.wf(),
            forall|j: int| 0 <= j < self.maps.len() ==> -SCALE < #[trigger] self.maps[j].d < SCALE,
            self.first().x <= x < self.last().x,
            -PRODUCT_LIMIT <= product <= PRODUCT_LIMIT,
            -VALUE_LIMIT <= acc <= VALUE_LIMIT,
            r1 >= product,
            r1 >= -product,
            r2 >= product,
            r2 >= -product,
        ensures
            self.refine(x, product, acc, r1) == self.refine(x, product, acc, r2),
        decreases r1,
    {
        if product == 0 {
            lemma_refine_zero_product(self, x, acc, r1);
            lemma_refine_zero_product(self, x, acc, r2);
        } else {
            self.lemma_segment_of_interior(x);
            let k = self.segment(x);
            let d = self.maps[k].d as int;
            Self::lemma_product_shrinks(product, d);
            let xp = self.pre_image(x);
            let acc2 = saturate(
                acc + floor_div(wide(product * self.term(x, xp)), SCALE as int),
                VALUE_LIMIT as int,
            );
            let product2 = saturate(trunc_div(product * d, SCALE as int), PRODUCT_LIMIT as int);
            self.lemma_refine_stable(xp, product2, acc2, (r1 - 1) as nat, (r2 - 1) as nat);
        }
    }

    /// Interpolation is exact at the samples: evaluating at the x-coordinate of
    /// any sample gives its y-coordinate, for distinct x-coordinates, a budget
    /// of at least one round, coordinates and factors within the exact range,
    /// and either a first sample at height zero or contraction factors that are
    /// all zero.
    pub proof fn lemma_interpolation_exact(self, i: int)
        requires
            self.wf(),
            self.within_exact_range(),
            strictly_sorted_by_x(self.points),
            self.iterations >= 1,
            0 <= i < self.points.len(),
            self.first().y == 0 || forall|j: int| 0 <= j < self.maps.len() ==> #[trigger] self.maps[j].d == 0,
        ensures
            self.value_at(self.points[i].x as int) == self.points[i].y,
    {
        let p = self.points;
        let n = self.maps.len() as int;
        let x = p[i].x as int;
        if 0 < i < n {
            assert(p[0].x < p[i].x < p[n].x);
            self.lemma_round_at_sample(i);
            self.lemma_segment_of_sample(i);
            let m = self.maps[i];
            assert(free_in_range(m.d as int));
            assert(point_in_range(p[i]));
            let y = p[i].y as int;
            let s = SCALE as int;
            assert(s * y - m.d * p[0].y == s * y) by {
                let y0 = p[0].y as int;
                let d = m.d as int;
                if y0 != 0 {
                    assert(self.maps[i].d == 0);
                }
                assert(d * y0 == 0) by (nonlinear_arith)
                    requires
                        d == 0 || y0 == 0,
                ;
            }
            vstd::arithmetic::div_mod::lemma_fundamental_div_mod_converse(s * y, s, y, 0);
            lemma_mul_bound(s, y, s, COORD_LIMIT as int);
            assert(s * y == y * s) by (nonlinear_arith);
            assert(trunc_div(s * m.d, s) == m.d) by {
                vstd::arithmetic::div_mod::lemma_fundamental_div_mod_converse(s * m.d, s, m.d as int, 0);
                if m.d < 0 {
                    vstd::arithmetic::div_mod::lemma_fundamental_div_mod_converse(-(s * m.d), s, -m.d, 0);
                }
            }
            let rounds = (self.iterations - 1) as nat;
            if p[0].y == 0 {
                self.lemma_refine_at_first(m.d as int, y, rounds);
            } else {
                assert(m.d == 0);
                lemma_refine_zero_product(self, p[0].x as int, y, rounds);
            }
        } else if i == n {
            assert(p[i] == self.last());
            assert(p[0].x < p[n].x);
        }
    }

    /// Outside the sampled interval the value is clamped to the end samples,
    /// which hold the least and the greatest x-coordinate. When all samples
    /// share one x-coordinate, the value there is the first sample's.
    pub proof fn lemma_boundary_clamping(self, x: int)
        requires
            self.wf(),
        ensures
            forall|i: int| 0 <= i < self.points.len() ==> self.first().x <= #[trigger] self.points[i].x <= self.last().x,
            x <= self.first().x ==> self.value_at(x) == self.first().y,
            x >= self.last().x && self.first().x < self.last().x ==> self.value_at(x)
                == self.last().y,
    {
    }

    /// The point the refinement has reached from `x` after `rounds` rounds.
    pub open spec fn position_after(self, x: int, rounds: nat) -> int
        decreases rounds,
    {
        if rounds == 0 {
            x
        } else {
            self.pre_image(self.position_after(x, (rounds - 1) as nat))
        }
    }

    /// The product of contraction factors that scales the contribution of
    /// round `rounds` of an evaluation at `x`.
    pub open spec fn product_after(self, x: int, rounds: nat) -> int
        decreases rounds,
    {
        if rounds == 0 {
            SCALE as int
        } else {
            let prev = (rounds - 1) as nat;
            let d = self.maps[self.segment(self.position_after(x, prev))].d as int;
            saturate(trunc_div(self.product_after(x, prev) * d, SCALE as int), PRODUCT_LIMIT as int)
        }
    }

    proof fn lemma_trajectory_interior(self, x: int, rounds: nat)
        requires
            self.wf(),
            self.first().x <= x < self.last().x,
        ensures
            self.first().x <= self.position_after(x, rounds) < self.last().x,
            -PRODUCT_LIMIT <= self.product_after(x, rounds) <= PRODUCT_LIMIT,
        decreases rounds,
    {
        if rounds > 0 {
            let prev = (rounds - 1) as nat;
            self.lemma_trajectory_interior(x, prev);
            self.lemma_segment_of_interior(self.position_after(x, prev));
        }
    }

    /// Decay of the contributions: with every contraction factor below one in
    /// magnitude, the product that scales each round's contribution loses
    /// magnitude strictly from one round to the next until it is zero, and then
    /// stays zero.
    pub proof fn lemma_product_decays(self, x: int, rounds: nat)
        requires
            self.wf(),
            forall|j: int| 0 <= j < self.maps.len() ==> -SCALE < #[trigger] self.maps[j].d < SCALE,
            self.first().x <= x < self.last().x,
        ensures
            self.product_after(x, rounds) > 0 ==> -self.product_after(x, rounds) < self.product_after(x, rounds + 1) < self.product_after(x, rounds),
            self.product_after(x, rounds) < 0 ==> self.product_after(x, rounds) < self.product_after(x, rounds + 1) < -self.product_after(x, rounds),
            self.product_after(x, rounds) == 0 ==> self.product_after(x, rounds + 1) == 0,
    {
        self.lemma_trajectory_interior(x, rounds);
        let pos = self.position_after(x, rounds);
        self.lemma_segment_of_interior(pos);
        let product = self.product_after(x, rounds);
        let d = self.maps[self.segment(pos)].d as int;
        assert(self.product_after(x, rounds + 1) == saturate(trunc_div(product * d, SCALE as int), PRODUCT_LIMIT as int));
        if product != 0 {
            Self::lemma_product_shrinks(product, d);
        } else {
            assert(product * d == 0) by (nonlinear_arith)
                requires
                    product == 0,
            ;
        }
    }

    /// After one round the product is at most its old magnitude times `q`,
    /// divided by the scale, when every factor is at most `q < SCALE`.
    proof fn lemma_product_step(product: int, d: int, q: int)
        requires
            -q <= d <= q,
            0 <= q < SCALE,
            -PRODUCT_LIMIT <= product <= PRODUCT_LIMIT,
        ensures
            ({
                let next = saturate(trunc_div(product * d, SCALE as int), PRODUCT_LIMIT as int);
                &&& magnitude(next) * SCALE <= magnitude(product) * q
                &&& -PRODUCT_LIMIT <= next <= PRODUCT_LIMIT
            }),
    {
        let s = SCALE as int;
        let v = product * d;
        assert(magnitude(v) <= magnitude(product) * q) by (nonlinear_arith)
            requires
                v == product * d,
                -q <= d <= q,
                q >= 0,
                magnitude(v) == (if v >= 0 { v } else { -v }),
                magnitude(product) == (if product >= 0 { product } else { -product }),
        ;
        let m = magnitude(v);
        vstd::arithmetic::div_mod::lemma_fundamental_div_mod(m, s);
        assert((m / s) * s <= m) by (nonlinear_arith)
            requires
                m == s * (m / s) + m % s,
                0 <= m % s,
        ;
        assert(m / s >= 0) by (nonlinear_arith)
            requires
                m >= 0,
                s > 0,
        ;
        assert(m <= PRODUCT_LIMIT * s) by (nonlinear_arith)
            requires
                m <= magnitude(product) * q,
                0 <= magnitude(product) <= PRODUCT_LIMIT,
                0 <= q < s,
        ;
        assert(m / s <= PRODUCT_LIMIT) by (nonlinear_arith)
            requires
                (m / s) * s <= m,
                m <= PRODUCT_LIMIT * s,
                s > 0,
        ;
    }

    /// Rounds stop changing the value once the product, scaled by `q` per
    /// round, would fall below one raw unit within `k` rounds.
    proof fn lemma_refine_settles(self, x: int, product: int, acc: int, k: nat, q: int, r1: nat, r2: nat)
        requires
            self.wf(),
            forall|j: int| 0 <= j < self.maps.len() ==> -q <= #[trigger] self.maps[j].d <= q,
            0 <= q < SCALE,
            self.first().x <= x < self.last().x,
            -PRODUCT_LIMIT <= product <= PRODUCT_LIMIT,
            -VALUE_LIMIT <= acc <= VALUE_LIMIT,
            magnitude(product) * pow(q, k) < pow(SCALE as int, k),
            r1 >= k,
            r2 >= k,
        ensures
            self.refine(x, product, acc, r1) == self.refine(x, product, acc, r2),
        decreases k,
    {
        if product == 0 {
            lemma_refine_zero_product(self, x, acc, r1);
            lemma_refine_zero_product(self, x, acc, r2);
        } else {
            reveal(pow);
            let s = SCALE as int;
            if k == 0 {
                assert(magnitude(product) < 1);
            }
            let k1 = (k - 1) as nat;
            self.lemma_segment_of_interior(x);
            let d = self.maps[self.segment(x)].d as int;
            Self::lemma_product_step(product, d, q);
            let next = saturate(trunc_div(product * d, s), PRODUCT_LIMIT as int);
            lemma_pow_nonnegative(q, k1);
            let pq = pow(q, k1);
            let ps = pow(s, k1);
            assert(pow(q, k) == q * pq);
            assert(pow(s, k) == s * ps);
            assert(magnitude(next) * pq < ps) by (nonlinear_arith)
                requires
                    magnitude(next) * s <= magnitude(product) * q,
                    magnitude(product) * (q * pq) < s * ps,
                    pq >= 0,
                    s > 0,
            ;
            let xp = self.pre_image(x);
            let acc2 = saturate(
                acc + floor_div(wide(product * self.term(x, xp)), SCALE as int),
                VALUE_LIMIT as int,
            );
            self.lemma_refine_settles(xp, next, acc2, k1, q, (r1 - 1) as nat, (r2 - 1) as nat);
        }
    }

    /// Convergence in the iteration budget: when every contraction factor is at
    /// most `q` in magnitude, with `q^k < SCALE^(k - 1)` (in value: `q^k < 1e-9`),
    /// any two budgets of at least `k` rounds give the same value.
    pub proof fn lemma_iterations_settle(self, x: int, q: int, k: nat, r1: nat, r2: nat)
        requires
            self.wf(),
            forall|j: int| 0 <= j < self.maps.len() ==> -q <= #[trigger] self.maps[j].d <= q,
            0 <= q < SCALE,
            SCALE * pow(q, k) < pow(SCALE as int, k),
            r1 >= k,
            r2 >= k,
        ensures
            self.value_with(x, r1) == self.value_with(x, r2),
    {
        if self.first().x < x < self.last().x {
            self.lemma_refine_settles(x, SCALE as int, 0, k, q, r1, r2);
        }
    }

    /// With every contraction factor zero, the value between samples `k` and
    /// `k + 1` is their linear interpolation: `y_k` plus the rise `dy` times
    /// `(x - x_k) / w`, where the position is first rounded down to the raw
    /// grid of the whole x-range `R`, giving `y_k + floor(dy * floor((x - x_k) R / w) / R)`.
    pub proof fn lemma_zero_factors_interpolate_linearly(self, x: int, k: int)
        requires
            self.wf(),
            self.within_exact_range(),
            self.iterations >= 1,
            forall|j: int| 0 <= j < self.maps.len() ==> #[trigger] self.maps[j].d == 0,
            0 <= k < self.maps.len(),
            self.points[k].x <= x < self.points[k + 1].x,
            self.first().x < x,
        ensures
            self.value_at(x) == self.points[k].y + floor_div(
                (self.points[k + 1].y - self.points[k].y) * floor_div(
                    (x - self.points[k].x) * self.range,
                    self.points[k + 1].x - self.points[k].x,
                ),
                self.range,
            ),
    {
        reveal(pow);
        let p = self.points;
        let n = self.maps.len() as int;
        let lim = COORD_LIMIT as int;
        let s = SCALE as int;
        assert(p[k + 1].x <= p[n].x);
        self.lemma_segment_of_interior(x);
        let seg = self.segment(x);
        assert(seg == k) by {
            if seg < k {
                assert(p[seg + 1].x <= p[k].x);
            } else if seg > k {
                assert(p[k + 1].x <= p[seg].x);
            }
        }
        self.lemma_coefficient_bounds(k);
        assert(map_of_segment(self.maps[k], p, k));
        let m = self.maps[k];
        assert(point_in_range(p[0]));
        assert(point_in_range(p[n]));
        assert(point_in_range(p[k]));
        assert(point_in_range(p[k + 1]));
        let r = self.range;
        let a = m.a as int;
        let x0 = p[0].x as int;
        let xk = p[k].x as int;
        let yk = p[k].y as int;
        let dy = p[k + 1].y - p[k].y;
        let v = (x - xk) * r;
        // The pre-image.
        assert(x * r - m.e == x0 * a + v) by (nonlinear_arith)
            requires
                a == p[k + 1].x - xk,
                m.e == p[n].x * xk - x0 * p[k + 1].x,
                r == p[n].x - x0,
                v == (x - xk) * r,
        ;
        lemma_mul_bound(x, r, lim, 2 * lim);
        let u = v / a;
        vstd::arithmetic::div_mod::lemma_fundamental_div_mod(v, a);
        assert(x0 * a + v == (x0 + u) * a + v % a) by (nonlinear_arith)
            requires
                v == a * u + v % a,
        ;
        vstd::arithmetic::div_mod::lemma_fundamental_div_mod_converse(x0 * a + v, a, x0 + u, v % a);
        assert(0 <= u < r) by (nonlinear_arith)
            requires
                v == a * u + v % a,
                0 <= v % a < a,
                v == (x - xk) * r,
                0 <= x - xk < a,
                r > 0,
        ;
        let xp = x0 + u;
        assert(self.pre_image(x) == xp);
        // The term.
        assert(m.c * xp + m.f == s * (yk * r + dy * u)) by (nonlinear_arith)
            requires
                m.c == dy * s,
                m.f == (p[n].x * yk - x0 * p[k + 1].y) * s,
                dy == p[k + 1].y - yk,
                r == p[n].x - x0,
                xp == x0 + u,
        ;
        lemma_mul_bound(m.c as int, xp, 0x1000_0000_0000_0000_0000, lim);
        let w = yk * r + dy * u;
        let t = floor_div(w, r);
        vstd::arithmetic::div_mod::lemma_fundamental_div_mod(w, r);
        let rem = w % r;
        assert(s * w == t * (r * s) + s * rem && 0 <= s * rem < r * s) by (nonlinear_arith)
            requires
                w == r * t + rem,
                0 <= rem < r,
                s > 0,
        ;
        vstd::arithmetic::div_mod::lemma_fundamental_div_mod_converse(s * w, r * s, t, s * rem);
        assert(self.term(x, xp) == t);
        let z = dy * u;
        vstd::arithmetic::div_mod::lemma_fundamental_div_mod(z, r);
        assert(w == (yk + z / r) * r + z % r) by (nonlinear_arith)
            requires
                w == yk * r + z,
                z == r * (z / r) + z % r,
        ;
        vstd::arithmetic::div_mod::lemma_fundamental_div_mod_converse(w, r, yk + z / r, z % r);
        assert(t == yk + z / r);
        // The value: one round adds the term, and the product becomes zero.
        lemma_mul_bound(dy, u, 2 * lim, r);
        lemma_floor_div_bound(z, r, 2 * lim * r, r);
        vstd::arithmetic::div_mod::lemma_div_multiples_vanish(2 * lim, r);
        assert(2 * lim * r == r * (2 * lim)) by (nonlinear_arith);
        assert(-4 * lim <= t <= 4 * lim);
        lemma_mul_bound(s, t, s, 4 * lim);
        vstd::arithmetic::div_mod::lemma_fundamental_div_mod_converse(s * t, s, t, 0);
        assert(s * t == t * s) by (nonlinear_arith);
        assert(s * 0 == 0);
        assert(trunc_div(0, s) == 0);
        lemma_refine_zero_product(self, xp, t, (self.iterations - 1) as nat);
        assert(self.refine(x, s, 0, self.iterations) == self.refine(xp, 0, t, (self.iterations - 1) as nat));
    }

    /// With every contraction factor below one in magnitude, the value no
    /// longer changes once the budget reaches `SCALE` rounds.
    pub proof fn lemma_iterations_converge(self, x: int, r1: nat, r2: nat)
        requires
            self.wf(),
            forall|j: int| 0 <= j < self.maps.len() ==> -SCALE < #[trigger] self.maps[j].d < SCALE,
            r1 >= SCALE,
            r2 >= SCALE,
        ensures
            self.value_with(x, r1) == self.value_with(x, r2),
    {
        if self.first().x < x < self.last().x {
            self.lemma_refine_stable(x, SCALE as int, 0, r1, r2);
        }
    }
}

/// The magnitude of `v`.
pub open spec fn magnitude(v: int) -> int {
    if v >= 0 {
        v
    } else {
        -v
    }
}

/// A power of a non-negative base is non-negative.
proof fn lemma_pow_nonnegative(b: int, e: nat)
    requires
        b >= 0,
    ensures
        pow(b, e) >= 0,
    decreases e,
{
    reveal(pow);
    if e > 0 {
        lemma_pow_nonnegative(b, (e - 1) as nat);
        assert(b * pow(b, (e - 1) as nat) >= 0) by (nonlinear_arith)
            requires
                b >= 0,
                pow(b, (e - 1) as nat) >= 0,
        ;
    }
}

/// `a` comes no later than `b` in the order by x, then y.
pub open spec fn precedes(a: Point, b: Point) -> bool {
    a.x < b.x || (a.x == b.x && a.y <= b.y)
}

/// Two sequences sorted by x, then y, that hold the same points are equal.
pub proof fn lemma_sorted_points_unique(s1: Seq<Point>, s2: Seq<Point>)
    requires
        sorted_by_x_then_y(s1),
        sorted_by_x_then_y(s2),
        s1.to_multiset() == s2.to_multiset(),
    ensures
        s1 == s2,
    decreases s1.len(),
{
    broadcast use vstd::seq_lib::group_to_multiset_ensures;

    assert(s1.len() == s1.to_multiset().len());
    assert(s2.len() == s2.to_multiset().len());
    if s1.len() > 0 {
        let a = s1[0];
        let b = s2[0];
        assert(s1.contains(a));
        assert(s2.to_multiset().count(a) > 0);
        assert(s2.contains(a));
        let j = choose|j: int| 0 <= j < s2.len() && s2[j] == a;
        assert(precedes(b, s2[j]));
        assert(s2.contains(b));
        assert(s1.to_multiset().count(b) > 0);
        assert(s1.contains(b));
        let k = choose|k: int| 0 <= k < s1.len() && s1[k] == b;
        assert(precedes(a, s1[k]));
        assert(a == b);
        let t1 = s1.remove(0);
        let t2 = s2.remove(0);
        assert(t1.to_multiset() == s1.to_multiset().remove(a));
        assert(t2.to_multiset() == s2.to_multiset().remove(b));
        assert(sorted_by_x_then_y(t1)) by {
            assert forall|i: int, l: int| 0 <= i <= l < t1.len() implies (t1[i].x < t1[l].x || (
            t1[i].x == t1[l].x && t1[i].y <= t1[l].y)) by {
                assert(t1[i] == s1[i + 1] && t1[l] == s1[l + 1]);
            }
        }
        assert(sorted_by_x_then_y(t2)) by {
            assert forall|i: int, l: int| 0 <= i <= l < t2.len() implies (t2[i].x < t2[l].x || (
            t2[i].x == t2[l].x && t2[i].y <= t2[l].y)) by {
                assert(t2[i] == s2[i + 1] && t2[l] == s2[l + 1]);
            }
        }
        lemma_sorted_points_unique(t1, t2);
        assert(s1 =~= seq![a] + t1);
        assert(s2 =~= seq![b] + t2);
    }
}

impl InterpolantModel {
    /// Construction is deterministic: two well-formed interpolants whose points
    /// are the same multiset, both sorted by x then y, with the same factor in
    /// every segment and the same budget, are the same.
    pub proof fn lemma_construction_deterministic(self, other: InterpolantModel)
        requires
            self.wf(),
            other.wf(),
            sorted_by_x_then_y(self.points),
            sorted_by_x_then_y(other.points),
            self.points.to_multiset() == other.points.to_multiset(),
            self.maps.len() == other.maps.len(),
            forall|i: int| 0 <= i < self.maps.len() ==> #[trigger] self.maps[i].d == other.maps[i].d,
            self.iterations == other.iterations,
        ensures
            self == other,
    {
        lemma_sorted_points_unique(self.points, other.points);
        assert forall|i: int| 0 <= i < self.maps.len() implies #[trigger] self.maps[i] == other.maps[i] by {
            assert(map_of_segment(self.maps[i], self.points, i));
            assert(map_of_segment(other.maps[i], other.points, i));
        }
        assert(self.maps =~= other.maps);
    }
}

} // verus!
