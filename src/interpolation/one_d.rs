//! One-dimensional fractal interpolation.
use vstd::prelude::*;

use crate::fixed::{
    add_wide, clamp_into, clamp_to, div_floor, div_trunc, mul_wide, sub_wide, wide, PRODUCT_LIMIT,
    SCALE, VALUE_LIMIT, WIDE_LIMIT,
};
use crate::interpolation::laws::{
    lemma_count_split, lemma_floor_div_bound, lemma_i64_product, lemma_mul_bound, lemma_refine_zero_product,
};
use crate::interpolation::model::{
    construction_error, map_of_segment, sorted_by_x_then_y, InterpolantModel,
};
use crate::interpolation::{arity_mismatch, free_at, AffineMap, ConstructionError, FreeVariables, Interpolant, Point};

verus! {

/// A fractal interpolation function through a set of sample points.
#[derive(Clone, Debug)]
pub struct Interpolant1D {
    points: Vec<Point>,
    maps: Vec<AffineMap>,
    iterations: usize,
    range: i128,
}

impl View for Interpolant1D {
    type V = InterpolantModel;

    closed spec fn view(&self) -> InterpolantModel {
        InterpolantModel {
            points: self.points@,
            maps: self.maps@,
            range: self.range as int,
            iterations: self.iterations as nat,
        }
    }
}

impl Interpolant1D {
    /// Index of the map whose segment holds `x`: the first one that ends after it.
    fn segment_index(&self, x: i128) -> (r: usize)
        requires
            self@.wf(),
            self@.first().x <= x < self@.last().x,
        ensures
            r as int == self@.segment(x as int),
            r < self@.maps.len(),
    {
        proof {
            self@.lemma_maps_sorted();
            self@.lemma_segment_of_interior(x as int);
        }
        let mut lo: usize = 0;
        let mut hi: usize = self.maps.len();
        while lo < hi
            invariant
                self@.wf(),
                0 <= lo <= hi <= self.maps@.len(),
                forall|i: int, j: int|
                    0 <= i <= j < self.maps@.len() ==> self.maps@[i].end_x <= self.maps@[j].end_x,
                forall|j: int| 0 <= j < lo ==> #[trigger] self.maps@[j].end_x <= x,
                forall|j: int| hi <= j < self.maps@.len() ==> #[trigger] self.maps@[j].end_x > x,
            decreases hi - lo,
        {
            let mid = lo + (hi - lo) / 2;
            if (self.maps[mid].end_x as i128) <= x {
                lo = mid + 1;
            } else {
                hi = mid;
            }
        }
        proof {
            lemma_count_split(self.maps@, x as int, self.maps@.len(), lo as int);
        }
        lo
    }
}

impl Interpolant for Interpolant1D {
    open spec fn valid(&self) -> bool {
        self@.wf()
    }

    open spec fn value_at(&self, x: int) -> int {
        self@.value_at(x)
    }

    /// Clamps to the end values outside the sampled interval; inside it, sums
    /// the contributions of up to `iterations` inverse steps, stopping early
    /// once the product of contraction factors drops below one raw unit.
    fn evaluate(&self, x: i64) -> (r: i64) {
        let n = self.points.len();
        let first = self.points[0];
        let last = self.points[n - 1];
        if x <= first.x {
            return first.y;
        }
        if x >= last.x {
            return last.y;
        }
        let ghost model = self@;
        let scale = SCALE as i128;
        let mut pos: i128 = x as i128;
        let mut product: i128 = scale;
        let mut acc: i128 = 0;
        let mut done: usize = 0;
        let lo = first.x as i128;
        let hi = last.x as i128 - 1;
        while done < self.iterations && product != 0
            invariant
                model == self@,
                model.wf(),
                scale == SCALE,
                lo == model.first().x,
                hi == model.last().x - 1,
                done <= self.iterations,
                model.first().x <= pos < model.last().x,
                -PRODUCT_LIMIT <= product <= PRODUCT_LIMIT,
                -VALUE_LIMIT <= acc <= VALUE_LIMIT,
                model.refine(pos as int, product as int, acc as int, (self.iterations - done) as nat)
                    == model.refine(x as int, SCALE as int, 0, self.iterations as nat),
            decreases self.iterations - done,
        {
            let k = self.segment_index(pos);
            let m = self.maps[k];
            proof {
                model.lemma_segment_of_interior(pos as int);
                lemma_mul_bound(pos as int, self.range as int, 0x8000_0000_0000_0000, 0xFFFF_FFFF_FFFF_FFFF);
                lemma_mul_bound(self.range as int, scale as int, 0xFFFF_FFFF_FFFF_FFFF, scale as int);
                assert(self.range * scale >= scale) by (nonlinear_arith)
                    requires
                        self.range >= 1,
                        scale > 0,
                ;
            }
            let xp = clamp_into(div_floor(sub_wide(pos * self.range, m.e), m.a), lo, hi);
            let t = div_floor(add_wide(mul_wide(m.c, xp), m.f), self.range * scale);
            let scaled = mul_wide(product, t);
            let q = div_floor(scaled, scale);
            proof {
                lemma_floor_div_bound(scaled as int, scale as int, WIDE_LIMIT as int, scale as int);
                lemma_mul_bound(product as int, m.d as int, PRODUCT_LIMIT as int, 0x8000_0000_0000_0000);
            }
            acc = clamp_to(acc + q, VALUE_LIMIT);
            product = clamp_to(div_trunc(product * (m.d as i128), scale), PRODUCT_LIMIT);
            pos = xp;
            done = done + 1;
        }
        proof {
            if done < self.iterations {
                lemma_refine_zero_product(model, pos as int, acc as int, (self.iterations - done) as nat);
            }
        }
        acc as i64
    }

    fn evaluate_many(&self, xs: &[i64]) -> (r: Vec<i64>) {
        let mut r: Vec<i64> = Vec::new();
        let mut i: usize = 0;
        while i < xs.len()
            invariant
                self@.wf(),
                i <= xs@.len(),
                r@.len() == i,
                forall|j: int| 0 <= j < i ==> r@[j] as int == self@.value_at(xs@[j] as int),
            decreases xs@.len() - i,
        {
            let v = self.evaluate(xs[i]);
            r.push(v);
            i = i + 1;
        }
        r
    }
}

/// Relies on `slice::sort_by_key`: it reorders the points so that their
/// `(x, y)` keys ascend, tuples comparing lexicographically.
#[verifier::external_body]
fn sort_by_x_then_y(v: &mut Vec<Point>)
    ensures
        final(v)@.to_multiset() == old(v)@.to_multiset(),
        sorted_by_x_then_y(final(v)@),
{
    v.sort_by_key(|p| (p.x, p.y));
}

/// The contraction factor of segment `i`.
fn free_value(fv: &FreeVariables, i: usize, n: usize) -> (r: i64)
    requires
        !arity_mismatch(*fv, n as int),
        i < n - 1,
    ensures
        r as int == free_at(*fv, i as int),
{
    match fv {
        FreeVariables::Scalar(v) => *v,
        FreeVariables::Array(a) => a[i],
    }
}

impl Interpolant1D {
    /// Builds the interpolant through `points` (in any order): sorts a copy of
    /// them by x (and by y among equal x) and derives the map of every segment
    /// between neighbours. Every coordinate and every contraction factor is
    /// accepted; factors of magnitude one or more are reported by
    /// [`Self::has_divergent_contraction`].
    pub fn new(points: &[Point], free_variables: FreeVariables, iterations: usize) -> (r: Result<
        Interpolant1D,
        ConstructionError,
    >)
        ensures
            match r {
                Err(e) => construction_error(points@, free_variables) == Some(e),
                Ok(ip) => {
                    &&& construction_error(points@, free_variables) is None
                    &&& ip@.wf()
                    &&& ip@.points.to_multiset() == points@.to_multiset()
                    &&& sorted_by_x_then_y(ip@.points)
                    &&& ip@.iterations == iterations
                    &&& forall|i: int|
                        0 <= i < ip@.maps.len() ==> #[trigger] ip@.maps[i].d == free_at(
                            free_variables,
                            i,
                        )
                },
            },
    {
        let n = points.len();
        if n < 2 {
            return Err(ConstructionError::InsufficientPoints);
        }
        if let FreeVariables::Array(a) = &free_variables {
            if a.len() != n - 1 {
                return Err(ConstructionError::FreeVariableArityMismatch);
            }
        }
        let mut sorted: Vec<Point> = Vec::new();
        let mut i: usize = 0;
        while i < n
            invariant
                n == points@.len(),
                i <= n,
                sorted@ == points@.subrange(0, i as int),
            decreases n - i,
        {
            sorted.push(points[i]);
            i = i + 1;
        }
        assert(sorted@ == points@);
        sort_by_x_then_y(&mut sorted);
        proof {
            broadcast use vstd::seq_lib::group_to_multiset_ensures;

            assert(sorted@.len() == sorted@.to_multiset().len());
        }
        let p0 = sorted[0];
        let pn = sorted[n - 1];
        let range = pn.x as i128 - p0.x as i128;
        let scale = SCALE as i128;
        let ghost p = sorted@;
        let mut maps: Vec<AffineMap> = Vec::new();
        let mut i: usize = 0;
        proof {
            lemma_i64_product(pn.x, p0.y);
            lemma_i64_product(p0.x, pn.y);
        }
        let cross_ends = sub_wide(pn.x as i128 * p0.y as i128, p0.x as i128 * pn.y as i128);
        while i < n - 1
            invariant
                n == points@.len(),
                n >= 2,
                p == sorted@,
                p.len() == n,
                p0 == p[0],
                pn == p[n - 1],
                scale == SCALE,
                cross_ends == wide(pn.x * p0.y - p0.x * pn.y),
                sorted_by_x_then_y(p),
                !arity_mismatch(free_variables, n as int),
                i <= n - 1,
                maps@.len() == i,
                forall|j: int|
                    0 <= j < i ==> {
                        &&& map_of_segment(#[trigger] maps@[j], p, j)
                        &&& maps@[j].d == free_at(free_variables, j)
                    },
            decreases n - 1 - i,
        {
            let pi = sorted[i];
            let pj = sorted[i + 1];
            let d = free_value(&free_variables, i, n);
            proof {
                lemma_i64_product(pn.x, pi.x);
                lemma_i64_product(p0.x, pj.x);
                lemma_i64_product(pn.x, pi.y);
                lemma_i64_product(p0.x, pj.y);
                lemma_mul_bound(pj.y - pi.y, SCALE as int, 0x1_0000_0000_0000_0000, SCALE as int);
                lemma_mul_bound(d as int, pn.y - p0.y, 0x8000_0000_0000_0000, 0xFFFF_FFFF_FFFF_FFFF);
            }
            let dw = d as i128;
            let cross = sub_wide(pn.x as i128 * pi.y as i128, p0.x as i128 * pj.y as i128);
            let m = AffineMap {
                a: pj.x as i128 - pi.x as i128,
                c: sub_wide((pj.y as i128 - pi.y as i128) * scale, dw * (pn.y as i128 - p0.y as i128)),
                d,
                e: sub_wide(pn.x as i128 * pi.x as i128, p0.x as i128 * pj.x as i128),
                f: sub_wide(mul_wide(cross, scale), mul_wide(dw, cross_ends)),
                end_x: pj.x,
            };
            maps.push(m);
            i = i + 1;
        }
        Ok(Interpolant1D { points: sorted, maps, iterations, range })
    }
}

impl Interpolant1D {
    /// The samples, sorted by x.
    pub fn points(&self) -> (r: &[Point])
        ensures
            r@ == self@.points,
    {
        self.points.as_slice()
    }

    /// The segment maps, in the order of the segments.
    pub fn maps(&self) -> (r: &[AffineMap])
        ensures
            r@ == self@.maps,
    {
        self.maps.as_slice()
    }

    pub fn iterations(&self) -> (r: usize)
        ensures
            r == self@.iterations,
    {
        self.iterations
    }

    /// Whether some segment has a contraction factor of magnitude one or more,
    /// under which evaluation spends its whole budget of rounds.
    pub fn has_divergent_contraction(&self) -> (r: bool)
        ensures
            r == exists|i: int|
                0 <= i < self@.maps.len() && !(-SCALE < #[trigger] self@.maps[i].d < SCALE),
    {
        let mut i: usize = 0;
        while i < self.maps.len()
            invariant
                i <= self.maps@.len(),
                forall|j: int| 0 <= j < i ==> -SCALE < #[trigger] self.maps@[j].d < SCALE,
            decreases self.maps@.len() - i,
        {
            let d = self.maps[i].d;
            if d <= -SCALE || d >= SCALE {
                assert(!(-SCALE < self@.maps[i as int].d < SCALE));
                return true;
            }
            i = i + 1;
        }
        false
    }
}

} // verus!
