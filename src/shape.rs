//! Shapes over encoded positions: points, boxes and spheres, their bounding
//! boxes, containment and rasterisation onto the integer lattice.

use vstd::prelude::*;

use crate::coordinate::Coordinate;
use crate::position::{all_le, sat_add, sat_sub, within, Position};

verus! {

/// The views of a list of positions.
pub open spec fn views(ps: Seq<Position>) -> Seq<Seq<u64>> {
    ps.map_values(|p: Position| p@)
}

/// The views of a list of coordinate vectors.
pub open spec fn vec_views(vs: Seq<Vec<u64>>) -> Seq<Seq<u64>> {
    vs.map_values(|v: Vec<u64>| v@)
}

/// End (excluded) of the values that the lattice takes on an axis from `lo`
/// towards `hi`: at least `lo` itself is always taken.
pub open spec fn axis_top(lo: u64, hi: u64) -> int {
    if hi > lo {
        hi as int
    } else {
        lo + 1
    }
}

/// A value taken on an axis: from `lo` up to `hi` excluded, or `lo` alone.
pub open spec fn on_axis(lo: u64, hi: u64, x: u64) -> bool {
    lo <= x && (x < hi || x == lo)
}

/// `p` is a lattice point of the box from `lo` to `hi`, counted from axis `d`.
pub open spec fn in_lattice_from(lo: Seq<u64>, hi: Seq<u64>, d: nat, p: Seq<u64>) -> bool {
    p.len() + d == lo.len() && forall|i: int|
        0 <= i < p.len() ==> #[trigger] on_axis(lo[d + i], hi[d + i], p[i])
}

/// `p` is a lattice point of the box from `lo` to `hi`.
pub open spec fn in_lattice(lo: Seq<u64>, hi: Seq<u64>, p: Seq<u64>) -> bool {
    in_lattice_from(lo, hi, 0, p)
}

/// Each tail with `v` put in front.
pub open spec fn prefixed(v: u64, tails: Seq<Seq<u64>>) -> Seq<Seq<u64>> {
    tails.map_values(|t: Seq<u64>| seq![v] + t)
}

/// For each value from `a` up to `b` excluded, in order, that value in front
/// of every tail.
pub open spec fn expand(a: int, b: int, tails: Seq<Seq<u64>>) -> Seq<Seq<u64>>
    decreases b - a,
{
    if b <= a {
        Seq::empty()
    } else {
        expand(a, b - 1, tails) + prefixed((b - 1) as u64, tails)
    }
}

/// The lattice points over the axes from `d` on, the last axis varying fastest.
pub open spec fn lattice_from(lo: Seq<u64>, hi: Seq<u64>, d: nat) -> Seq<Seq<u64>>
    decreases lo.len() - d,
{
    if d >= lo.len() {
        seq![Seq::<u64>::empty()]
    } else {
        expand(lo[d as int] as int, axis_top(lo[d as int], hi[d as int]), lattice_from(lo, hi, d + 1))
    }
}

/// The lattice points of the box from `lo` to `hi`, in odometer order.
pub open spec fn lattice(lo: Seq<u64>, hi: Seq<u64>) -> Seq<Seq<u64>> {
    lattice_from(lo, hi, 0)
}

proof fn lemma_contains_concat(s1: Seq<Seq<u64>>, s2: Seq<Seq<u64>>, x: Seq<u64>)
    ensures
        (s1 + s2).contains(x) <==> (s1.contains(x) || s2.contains(x)),
{
    if (s1 + s2).contains(x) {
        let i = choose|i: int| 0 <= i < (s1 + s2).len() && (s1 + s2)[i] == x;
        if i < s1.len() {
            assert(s1[i] == x);
        } else {
            assert(s2[i - s1.len()] == x);
        }
    }
    if s1.contains(x) {
        let i = choose|i: int| 0 <= i < s1.len() && s1[i] == x;
        assert((s1 + s2)[i] == x);
    }
    if s2.contains(x) {
        let i = choose|i: int| 0 <= i < s2.len() && s2[i] == x;
        assert((s1 + s2)[s1.len() + i] == x);
    }
}

proof fn lemma_contains_prefixed(v: u64, tails: Seq<Seq<u64>>, x: Seq<u64>)
    ensures
        prefixed(v, tails).contains(x) <==> (x.len() >= 1 && x[0] == v && tails.contains(
            x.drop_first(),
        )),
{
    if prefixed(v, tails).contains(x) {
        let i = choose|i: int| 0 <= i < prefixed(v, tails).len() && prefixed(v, tails)[i] == x;
        assert(x == seq![v] + tails[i]);
        assert(x.drop_first() =~= tails[i]);
    }
    if x.len() >= 1 && x[0] == v && tails.contains(x.drop_first()) {
        let i = choose|i: int| 0 <= i < tails.len() && tails[i] == x.drop_first();
        assert(prefixed(v, tails)[i] =~= x);
    }
}

proof fn lemma_contains_expand(a: int, b: int, tails: Seq<Seq<u64>>, x: Seq<u64>)
    requires
        0 <= a,
        b <= u64::MAX + 1,
    ensures
        expand(a, b, tails).contains(x) <==> (x.len() >= 1 && a <= x[0] < b && tails.contains(
            x.drop_first(),
        )),
    decreases b - a,
{
    if b > a {
        lemma_contains_expand(a, b - 1, tails, x);
        lemma_contains_concat(expand(a, b - 1, tails), prefixed((b - 1) as u64, tails), x);
        lemma_contains_prefixed((b - 1) as u64, tails, x);
    }
}

proof fn lemma_contains_lattice_from(lo: Seq<u64>, hi: Seq<u64>, d: nat, x: Seq<u64>)
    requires
        lo.len() == hi.len(),
        d <= lo.len(),
    ensures
        lattice_from(lo, hi, d).contains(x) <==> in_lattice_from(lo, hi, d, x),
    decreases lo.len() - d,
{
    if d >= lo.len() {
        if lattice_from(lo, hi, d).contains(x) {
            assert(lattice_from(lo, hi, d)[0] == x);
        }
        if in_lattice_from(lo, hi, d, x) {
            assert(x =~= Seq::<u64>::empty());
            assert(lattice_from(lo, hi, d)[0] == x);
        }
    } else {
        let l = lo[d as int];
        let h = hi[d as int];
        lemma_contains_lattice_from(lo, hi, d + 1, x.drop_first());
        lemma_contains_expand(l as int, axis_top(l, h), lattice_from(lo, hi, d + 1), x);
        if in_lattice_from(lo, hi, d, x) {
            assert(on_axis(lo[d + 0int], hi[d + 0int], x[0]));
            assert forall|i: int| 0 <= i < x.drop_first().len() implies #[trigger] on_axis(
                lo[(d + 1) + i],
                hi[(d + 1) + i],
                x.drop_first()[i],
            ) by {
                assert(on_axis(lo[d + (i + 1)], hi[d + (i + 1)], x[i + 1]));
            }
        }
        if x.len() >= 1 && l <= x[0] < axis_top(l, h) && in_lattice_from(
            lo,
            hi,
            d + 1,
            x.drop_first(),
        ) {
            assert forall|i: int| 0 <= i < x.len() implies #[trigger] on_axis(
                lo[d + i],
                hi[d + i],
                x[i],
            ) by {
                if i > 0 {
                    assert(on_axis(lo[(d + 1) + (i - 1)], hi[(d + 1) + (i - 1)], x.drop_first()[i - 1]));
                }
            }
        }
    }
}

/// The points enumerated for a box are exactly its lattice points.
pub proof fn lemma_lattice_members(lo: Seq<u64>, hi: Seq<u64>, x: Seq<u64>)
    requires
        lo.len() == hi.len(),
    ensures
        lattice(lo, hi).contains(x) <==> in_lattice(lo, hi, x),
{
    lemma_contains_lattice_from(lo, hi, 0, x);
}

/// Every lattice point of the box from `lo` to `hi`, last axis varying
/// fastest. On each axis the values run from `lo` up to `hi` excluded; an
/// axis where that range is empty takes the value of `lo` alone.
pub fn lattice_points(lo: &Position, hi: &Position) -> (r: Vec<Position>)
    requires
        lo@.len() == hi@.len(),
    ensures
        views(r@) == lattice(lo@, hi@),
{
    let k = lo.dimensions();
    let mut acc: Vec<Vec<u64>> = Vec::new();
    acc.push(Vec::new());
    assert(vec_views(acc@) =~= lattice_from(lo@, hi@, k as nat));
    let mut d: usize = k;
    while d > 0
        invariant
            d <= k,
            k == lo@.len(),
            lo@.len() == hi@.len(),
            vec_views(acc@) == lattice_from(lo@, hi@, d as nat),
        decreases d,
    {
        d -= 1;
        let a = lo.value_at(d);
        let b = hi.value_at(d);
        let last: u64 = if b > a {
            b - 1
        } else {
            a
        };
        let ghost tails = vec_views(acc@);
        let mut next: Vec<Vec<u64>> = Vec::new();
        let mut v: u64 = a;
        assert(vec_views(next@) =~= expand(a as int, a as int, tails));
        loop
            invariant_except_break
                a <= v <= last,
                vec_views(next@) == expand(a as int, v as int, tails),
            invariant
                tails == vec_views(acc@),
                last + 1 == axis_top(a, b),
            ensures
                vec_views(next@) == expand(a as int, last + 1, tails),
            decreases last - v,
        {
            let mut j: usize = 0;
            while j < acc.len()
                invariant
                    j <= acc@.len(),
                    tails == vec_views(acc@),
                    vec_views(next@) == expand(a as int, v as int, tails) + prefixed(
                        v,
                        tails,
                    ).subrange(0, j as int),
                decreases acc@.len() - j,
            {
                let t = &acc[j];
                let mut w: Vec<u64> = Vec::new();
                w.push(v);
                let mut m: usize = 0;
                while m < t.len()
                    invariant
                        m <= t@.len(),
                        w@ == seq![v] + t@.subrange(0, m as int),
                    decreases t@.len() - m,
                {
                    w.push(t[m]);
                    m += 1;
                    assert(w@ =~= seq![v] + t@.subrange(0, m as int));
                }
                assert(w@ =~= prefixed(v, tails)[j as int]);
                let ghost before = vec_views(next@);
                next.push(w);
                assert(vec_views(next@) =~= before.push(prefixed(v, tails)[j as int]));
                assert(prefixed(v, tails).subrange(0, j + 1) =~= prefixed(v, tails).subrange(
                    0,
                    j as int,
                ).push(prefixed(v, tails)[j as int]));
                j += 1;
                assert(vec_views(next@) =~= expand(a as int, v as int, tails) + prefixed(
                    v,
                    tails,
                ).subrange(0, j as int));
            }
            assert(vec_views(next@) =~= expand(a as int, v + 1, tails));
            if v == last {
                break;
            }
            v += 1;
        }
        acc = next;
    }
    let mut out: Vec<Position> = Vec::new();
    let mut i: usize = 0;
    while i < acc.len()
        invariant
            i <= acc@.len(),
            views(out@) == vec_views(acc@).subrange(0, i as int),
        decreases acc@.len() - i,
    {
        let mut w: Vec<u64> = Vec::new();
        let t = &acc[i];
        let mut m: usize = 0;
        while m < t.len()
            invariant
                m <= t@.len(),
                w@ == t@.subrange(0, m as int),
            decreases t@.len() - m,
        {
            w.push(t[m]);
            m += 1;
            assert(w@ =~= t@.subrange(0, m as int));
        }
        assert(w@ =~= t@);
        let ghost before = views(out@);
        out.push(Position::from_values(w));
        assert(views(out@) =~= before.push(vec_views(acc@)[i as int]));
        i += 1;
        assert(views(out@) =~= vec_views(acc@).subrange(0, i as int));
    }
    assert(views(out@) =~= lattice(lo@, hi@));
    out
}

/// A volume in an encoded space.
#[derive(Clone, Debug)]
pub enum Shape {
    /// A single position.
    Point(Position),
    /// The positions within a distance of a center.
    HyperSphere(Position, Coordinate),
    /// The axis-aligned box between a lower and a higher corner, both included.
    BoundingBox(Position, Position),
}

impl Shape {
    /// Corners in the same dimension, the lower one at most the higher one.
    pub open spec fn well_formed(&self) -> bool {
        match self {
            Shape::Point(_) => true,
            Shape::HyperSphere(_, _) => true,
            Shape::BoundingBox(lo, hi) => all_le(lo@, hi@),
        }
    }

    /// A box has corners of one dimension.
    pub open spec fn dims_agree(&self) -> bool {
        match self {
            Shape::BoundingBox(lo, hi) => lo@.len() == hi@.len(),
            _ => true,
        }
    }

    /// The minimum bounding box, lower and higher corner. For a sphere the
    /// corners are the center moved by the radius on every axis, kept within
    /// the encoded range.
    pub open spec fn spec_mbb(&self) -> (Seq<u64>, Seq<u64>) {
        match self {
            Shape::Point(p) => (p@, p@),
            Shape::HyperSphere(c, r) => (
                c@.map_values(|x: u64| sat_sub(x, r.value())),
                c@.map_values(|x: u64| sat_add(x, r.value())),
            ),
            Shape::BoundingBox(lo, hi) => (lo@, hi@),
        }
    }

    /// Whether the shape holds the position `p`.
    pub open spec fn spec_contains(&self, p: Seq<u64>) -> bool {
        match self {
            Shape::Point(q) => q@ == p,
            Shape::HyperSphere(c, r) => p.len() == c@.len() && within(p, c@, r.value()),
            Shape::BoundingBox(lo, hi) => all_le(lo@, p) && all_le(p, hi@),
        }
    }

    /// The lattice points that stand for the shape, in odometer order.
    pub open spec fn spec_rasterise(&self) -> Seq<Seq<u64>> {
        match self {
            Shape::Point(p) => seq![p@],
            Shape::HyperSphere(c, r) => lattice(self.spec_mbb().0, self.spec_mbb().1).filter(
                |q: Seq<u64>| within(q, c@, r.value()),
            ),
            Shape::BoundingBox(lo, hi) => lattice(lo@, hi@),
        }
    }

    /// Same kind of shape over the same positions and radius.
    pub open spec fn same_as(&self, other: Shape) -> bool {
        match (*self, other) {
            (Shape::Point(a), Shape::Point(b)) => a@ == b@,
            (Shape::HyperSphere(a, x), Shape::HyperSphere(b, y)) => a@ == b@ && x == y,
            (Shape::BoundingBox(a, c), Shape::BoundingBox(b, d)) => a@ == b@ && c@ == d@,
            _ => false,
        }
    }

    /// A copy of the shape.
    pub fn duplicate(&self) -> (r: Shape)
        ensures
            r.same_as(*self),
    {
        match self {
            Shape::Point(p) => Shape::Point(p.duplicate()),
            Shape::HyperSphere(c, r) => Shape::HyperSphere(c.duplicate(), *r),
            Shape::BoundingBox(lo, hi) => Shape::BoundingBox(lo.duplicate(), hi.duplicate()),
        }
    }

    /// The minimum bounding box of the shape.
    pub fn get_mbb(&self) -> (r: (Position, Position))
        ensures
            r.0@ == self.spec_mbb().0,
            r.1@ == self.spec_mbb().1,
    {
        match self {
            Shape::Point(p) => (p.duplicate(), p.duplicate()),
            Shape::HyperSphere(c, radius) => {
                let lo = c.lower_each(radius.u64());
                let hi = c.raise_each(radius.u64());
                assert(lo@ =~= self.spec_mbb().0);
                assert(hi@ =~= self.spec_mbb().1);
                (lo, hi)
            },
            Shape::BoundingBox(lo, hi) => (lo.duplicate(), hi.duplicate()),
        }
    }

    /// Whether the shape holds `position`: equality for a point, the box
    /// bounds for a box, the exact Euclidean distance for a sphere.
    pub fn contains(&self, position: &Position) -> (r: bool)
        ensures
            r == self.spec_contains(position@),
    {
        match self {
            Shape::Point(q) => q.equals(position),
            Shape::HyperSphere(c, radius) => {
                if position.dimensions() != c.dimensions() {
                    false
                } else {
                    position.within_radius(c, radius.u64())
                }
            },
            Shape::BoundingBox(lo, hi) => lo.le(position) && position.le(hi),
        }
    }

    /// The lattice points that stand for the shape: the point itself, the
    /// lattice points of a box, or those of a sphere's bounding box that lie
    /// within its radius.
    pub fn rasterise(&self) -> (r: Vec<Position>)
        requires
            self.dims_agree(),
        ensures
            views(r@) == self.spec_rasterise(),
    {
        match self {
            Shape::Point(p) => {
                let mut out: Vec<Position> = Vec::new();
                out.push(p.duplicate());
                assert(views(out@) =~= self.spec_rasterise());
                out
            },
            Shape::BoundingBox(lo, hi) => lattice_points(lo, hi),
            Shape::HyperSphere(c, radius) => {
                let (lo, hi) = self.get_mbb();
                let pts = lattice_points(&lo, &hi);
                let rv = radius.u64();
                let ghost pred = |q: Seq<u64>| within(q, c@, rv);
                let mut out: Vec<Position> = Vec::new();
                let mut i: usize = 0;
                assert(views(pts@).subrange(0, 0) =~= Seq::<Seq<u64>>::empty());
                proof {
                    reveal(Seq::filter);
                }
                while i < pts.len()
                    invariant
                        i <= pts@.len(),
                        lo@.len() == c@.len(),
                        hi@.len() == c@.len(),
                        views(pts@) == lattice(lo@, hi@),
                        pred == (|q: Seq<u64>| within(q, c@, rv)),
                        views(out@) == views(pts@).subrange(0, i as int).filter(pred),
                    decreases pts@.len() - i,
                {
                    proof {
                        assert(views(pts@)[i as int] == pts@[i as int]@);
                        assert(lattice(lo@, hi@).contains(pts@[i as int]@));
                        lemma_lattice_members(lo@, hi@, pts@[i as int]@);
                        reveal(Seq::filter);
                    }
                    let keep = pts[i].within_radius(c, rv);
                    let ghost before = views(out@);
                    if keep {
                        out.push(pts[i].duplicate());
                        assert(views(out@) =~= before.push(pts@[i as int]@));
                    }
                    let ghost sub = views(pts@).subrange(0, i + 1);
                    assert(sub.drop_last() =~= views(pts@).subrange(0, i as int));
                    i += 1;
                }
                assert(views(pts@).subrange(0, i as int) =~= views(pts@));
                out
            },
        }
    }
}

/// Every position that rasterising a well-formed shape yields is held by
/// that shape.
pub proof fn lemma_rasterised_are_contained(s: Shape, p: Seq<u64>)
    requires
        s.well_formed(),
        s.spec_rasterise().contains(p),
    ensures
        s.spec_contains(p),
{
    match s {
        Shape::Point(q) => {
            assert(s.spec_rasterise()[0] == p);
        },
        Shape::BoundingBox(lo, hi) => {
            lemma_lattice_members(lo@, hi@, p);
            assert forall|i: int| 0 <= i < p.len() implies lo@[i] <= p[i] && p[i] <= hi@[i] by {
                assert(on_axis(lo@[0 + i], hi@[0 + i], p[i]));
            }
        },
        Shape::HyperSphere(c, r) => {
            let pred = |q: Seq<u64>| within(q, c@, r.value());
            let all = lattice(s.spec_mbb().0, s.spec_mbb().1);
            let k = choose|k: int| 0 <= k < all.filter(pred).len() && all.filter(pred)[k] == p;
            all.lemma_filter_pred(pred, k);
            all.lemma_filter_contains_rev(pred, p);
            lemma_lattice_members(s.spec_mbb().0, s.spec_mbb().1, p);
        },
    }
}

/// Rasterising a sphere yields a subset of what rasterising its minimum
/// bounding box as a box yields.
pub proof fn lemma_sphere_raster_within_mbb(
    center: Position,
    radius: Coordinate,
    lo: Position,
    hi: Position,
    p: Seq<u64>,
)
    requires
        lo@ == Shape::HyperSphere(center, radius).spec_mbb().0,
        hi@ == Shape::HyperSphere(center, radius).spec_mbb().1,
        Shape::HyperSphere(center, radius).spec_rasterise().contains(p),
    ensures
        Shape::BoundingBox(lo, hi).spec_rasterise().contains(p),
{
    let pred = |q: Seq<u64>| within(q, center@, radius.value());
    lattice(lo@, hi@).lemma_filter_contains_rev(pred, p);
}

} // verus!
