//! Positions made of encoded coordinates.

use std::cmp::Ordering;
use vstd::prelude::*;

use crate::coordinate::Coordinate;

verus! {

/// Every coordinate of `a` is at most the one of `b`, dimensions equal.
pub open spec fn all_le(a: Seq<u64>, b: Seq<u64>) -> bool {
    a.len() == b.len() && forall|i: int| 0 <= i < a.len() ==> a[i] <= b[i]
}

/// The partial order of positions: `None` for different dimensions or when
/// some coordinates are smaller and others larger.
pub open spec fn position_cmp(a: Seq<u64>, b: Seq<u64>) -> Option<Ordering> {
    if a.len() != b.len() {
        None
    } else if a == b {
        Some(Ordering::Equal)
    } else if all_le(a, b) {
        Some(Ordering::Less)
    } else if all_le(b, a) {
        Some(Ordering::Greater)
    } else {
        None
    }
}

/// `x - y` floored at zero.
pub open spec fn sat_sub(x: u64, y: u64) -> u64 {
    if x < y {
        0
    } else {
        (x - y) as u64
    }
}

/// `x + y` capped at the largest encoded value.
pub open spec fn sat_add(x: u64, y: u64) -> u64 {
    if x + y > u64::MAX {
        u64::MAX
    } else {
        (x + y) as u64
    }
}

/// `|x - y|`.
pub open spec fn abs_diff(x: u64, y: u64) -> int {
    if x < y {
        y - x
    } else {
        x - y
    }
}

/// Squared Euclidean distance over the first `n` coordinates.
pub open spec fn sq_dist(a: Seq<u64>, b: Seq<u64>, n: nat) -> int
    decreases n,
{
    if n == 0 {
        0
    } else {
        sq_dist(a, b, (n - 1) as nat) + abs_diff(a[n - 1], b[n - 1]) * abs_diff(a[n - 1], b[n - 1])
    }
}

/// `a` lies within distance `r` of `c`, exactly: `|a - c|^2 <= r^2`.
pub open spec fn within(a: Seq<u64>, c: Seq<u64>, r: u64) -> bool {
    sq_dist(a, c, a.len()) <= r * r
}

/// The squared distance never shrinks as more coordinates are counted.
pub proof fn lemma_sq_dist_monotonic(a: Seq<u64>, b: Seq<u64>, i: nat, n: nat)
    requires
        i <= n,
    ensures
        sq_dist(a, b, i) <= sq_dist(a, b, n),
    decreases n - i,
{
    if i < n {
        lemma_sq_dist_monotonic(a, b, i, (n - 1) as nat);
        let d = abs_diff(a[n - 1], b[n - 1]);
        assert(d * d >= 0) by (nonlinear_arith);
    }
}

/// A point in an encoded space: one tick index per axis.
#[derive(Clone, Debug, Hash)]
pub struct Position {
    coordinates: Vec<u64>,
}

impl View for Position {
    type V = Seq<u64>;

    closed spec fn view(&self) -> Seq<u64> {
        self.coordinates@
    }
}

impl PartialEq for Position {
    fn eq(&self, other: &Position) -> (r: bool) {
        self.equals(other)
    }
}

impl vstd::std_specs::cmp::PartialEqSpecImpl for Position {
    open spec fn obeys_eq_spec() -> bool {
        true
    }

    open spec fn eq_spec(&self, other: &Position) -> bool {
        self@ == other@
    }
}

impl PartialOrd for Position {
    fn partial_cmp(&self, other: &Position) -> (r: Option<Ordering>) {
        self.compare(other)
    }
}

impl vstd::std_specs::cmp::PartialOrdSpecImpl for Position {
    open spec fn obeys_partial_cmp_spec() -> bool {
        true
    }

    open spec fn partial_cmp_spec(&self, other: &Position) -> Option<Ordering> {
        position_cmp(self@, other@)
    }
}

impl Position {
    /// A position from its coordinates, in order.
    pub fn new(coordinates: Vec<Coordinate>) -> (r: Position)
        ensures
            r@.len() == coordinates@.len(),
            forall|i: int| 0 <= i < r@.len() ==> r@[i] == coordinates@[i].value(),
    {
        let mut v: Vec<u64> = Vec::with_capacity(coordinates.len());
        let mut i: usize = 0;
        while i < coordinates.len()
            invariant
                i <= coordinates@.len(),
                v@.len() == i,
                forall|j: int| 0 <= j < i ==> v@[j] == coordinates@[j].value(),
            decreases coordinates@.len() - i,
        {
            v.push(coordinates[i].u64());
            i += 1;
        }
        Position { coordinates: v }
    }

    /// A position from plain coordinate values.
    pub fn from_values(values: Vec<u64>) -> (r: Position)
        ensures
            r@ == values@,
    {
        Position { coordinates: values }
    }

    /// The coordinate values, in order.
    pub fn values(&self) -> (r: &Vec<u64>)
        ensures
            r@ == self@,
    {
        &self.coordinates
    }

    /// Number of coordinates.
    pub fn dimensions(&self) -> (r: usize)
        ensures
            r == self@.len(),
    {
        self.coordinates.len()
    }

    /// Coordinate `k`, in its narrowest variant.
    pub fn get(&self, k: usize) -> (r: Coordinate)
        requires
            k < self@.len(),
        ensures
            r.value() == self@[k as int],
            r.is_narrowest(),
    {
        Coordinate::from_u64(self.coordinates[k])
    }

    /// Value of coordinate `k`.
    pub fn value_at(&self, k: usize) -> (r: u64)
        requires
            k < self@.len(),
        ensures
            r == self@[k as int],
    {
        self.coordinates[k]
    }

    /// A copy with the same coordinates.
    pub fn duplicate(&self) -> (r: Position)
        ensures
            r@ == self@,
    {
        let mut v: Vec<u64> = Vec::with_capacity(self.coordinates.len());
        let mut i: usize = 0;
        while i < self.coordinates.len()
            invariant
                i <= self@.len(),
                v@ == self@.subrange(0, i as int),
            decreases self@.len() - i,
        {
            v.push(self.coordinates[i]);
            i += 1;
            assert(v@ =~= self@.subrange(0, i as int));
        }
        assert(v@ =~= self@);
        Position { coordinates: v }
    }

    /// Same coordinates, in the same order.
    pub fn equals(&self, other: &Position) -> (r: bool)
        ensures
            r == (self@ == other@),
    {
        if self.coordinates.len() != other.coordinates.len() {
            return false;
        }
        let mut i: usize = 0;
        while i < self.coordinates.len()
            invariant
                i <= self@.len(),
                self@.len() == other@.len(),
                forall|j: int| 0 <= j < i ==> self@[j] == other@[j],
            decreases self@.len() - i,
        {
            if self.coordinates[i] != other.coordinates[i] {
                return false;
            }
            i += 1;
        }
        assert(self@ =~= other@);
        true
    }

    /// The partial order: every coordinate at most the other's.
    pub fn le(&self, other: &Position) -> (r: bool)
        ensures
            r == all_le(self@, other@),
    {
        if self.coordinates.len() != other.coordinates.len() {
            return false;
        }
        let mut i: usize = 0;
        while i < self.coordinates.len()
            invariant
                i <= self@.len(),
                self@.len() == other@.len(),
                forall|j: int| 0 <= j < i ==> self@[j] <= other@[j],
            decreases self@.len() - i,
        {
            if self.coordinates[i] > other.coordinates[i] {
                return false;
            }
            i += 1;
        }
        true
    }

    /// Compare in the partial order of positions.
    pub fn compare(&self, other: &Position) -> (r: Option<Ordering>)
        ensures
            r == position_cmp(self@, other@),
    {
        if self.coordinates.len() != other.coordinates.len() {
            None
        } else if self.equals(other) {
            Some(Ordering::Equal)
        } else if self.le(other) {
            Some(Ordering::Less)
        } else if other.le(self) {
            Some(Ordering::Greater)
        } else {
            None
        }
    }

    /// Drop the `scale` lowest bits of every coordinate.
    pub fn reduce_precision(&self, scale: u32) -> (r: Position)
        requires
            scale < 64,
        ensures
            r@.len() == self@.len(),
            forall|i: int| 0 <= i < r@.len() ==> r@[i] == self@[i] >> (scale as u64),
    {
        let mut v: Vec<u64> = Vec::with_capacity(self.coordinates.len());
        let mut i: usize = 0;
        while i < self.coordinates.len()
            invariant
                i <= self@.len(),
                scale < 64,
                v@.len() == i,
                forall|j: int| 0 <= j < i ==> v@[j] == self@[j] >> (scale as u64),
            decreases self@.len() - i,
        {
            v.push(self.coordinates[i] >> (scale as u64));
            i += 1;
        }
        Position { coordinates: v }
    }

    /// Coordinate-wise maximum of two positions of equal dimensions.
    pub fn max_each(&self, other: &Position) -> (r: Position)
        requires
            self@.len() == other@.len(),
        ensures
            r@.len() == self@.len(),
            forall|i: int|
                0 <= i < r@.len() ==> r@[i] == (if self@[i] < other@[i] {
                    other@[i]
                } else {
                    self@[i]
                }),
    {
        let mut v: Vec<u64> = Vec::with_capacity(self.coordinates.len());
        let mut i: usize = 0;
        while i < self.coordinates.len()
            invariant
                i <= self@.len(),
                self@.len() == other@.len(),
                v@.len() == i,
                forall|j: int|
                    0 <= j < i ==> v@[j] == (if self@[j] < other@[j] {
                        other@[j]
                    } else {
                        self@[j]
                    }),
            decreases self@.len() - i,
        {
            let a = self.coordinates[i];
            let b = other.coordinates[i];
            v.push(if a < b { b } else { a });
            i += 1;
        }
        Position { coordinates: v }
    }

    /// Coordinate-wise minimum of two positions of equal dimensions.
    pub fn min_each(&self, other: &Position) -> (r: Position)
        requires
            self@.len() == other@.len(),
        ensures
            r@.len() == self@.len(),
            forall|i: int|
                0 <= i < r@.len() ==> r@[i] == (if self@[i] < other@[i] {
                    self@[i]
                } else {
                    other@[i]
                }),
    {
        let mut v: Vec<u64> = Vec::with_capacity(self.coordinates.len());
        let mut i: usize = 0;
        while i < self.coordinates.len()
            invariant
                i <= self@.len(),
                self@.len() == other@.len(),
                v@.len() == i,
                forall|j: int|
                    0 <= j < i ==> v@[j] == (if self@[j] < other@[j] {
                        self@[j]
                    } else {
                        other@[j]
                    }),
            decreases self@.len() - i,
        {
            let a = self.coordinates[i];
            let b = other.coordinates[i];
            v.push(if a < b { a } else { b });
            i += 1;
        }
        Position { coordinates: v }
    }

    /// Every coordinate lowered by `d`, floored at zero.
    pub fn lower_each(&self, d: u64) -> (r: Position)
        ensures
            r@.len() == self@.len(),
            forall|i: int| 0 <= i < r@.len() ==> r@[i] == sat_sub(self@[i], d),
    {
        let mut v: Vec<u64> = Vec::with_capacity(self.coordinates.len());
        let mut i: usize = 0;
        while i < self.coordinates.len()
            invariant
                i <= self@.len(),
                v@.len() == i,
                forall|j: int| 0 <= j < i ==> v@[j] == sat_sub(self@[j], d),
            decreases self@.len() - i,
        {
            let a = self.coordinates[i];
            v.push(if a < d { 0 } else { a - d });
            i += 1;
        }
        Position { coordinates: v }
    }

    /// Every coordinate raised by `d`, capped at the largest encoded value.
    pub fn raise_each(&self, d: u64) -> (r: Position)
        ensures
            r@.len() == self@.len(),
            forall|i: int| 0 <= i < r@.len() ==> r@[i] == sat_add(self@[i], d),
    {
        let mut v: Vec<u64> = Vec::with_capacity(self.coordinates.len());
        let mut i: usize = 0;
        while i < self.coordinates.len()
            invariant
                i <= self@.len(),
                v@.len() == i,
                forall|j: int| 0 <= j < i ==> v@[j] == sat_add(self@[j], d),
            decreases self@.len() - i,
        {
            let a = self.coordinates[i];
            v.push(if a > u64::MAX - d { u64::MAX } else { a + d });
            i += 1;
        }
        Position { coordinates: v }
    }

    /// Whether `self` lies within Euclidean distance `radius` of `center`,
    /// computed exactly on the encoded values.
    pub fn within_radius(&self, center: &Position, radius: u64) -> (r: bool)
        requires
            self@.len() == center@.len(),
        ensures
            r == within(self@, center@, radius),
    {
        assert((radius as u128) * (radius as u128) <= u128::MAX) by (nonlinear_arith)
            requires radius <= u64::MAX;
        let limit: u128 = (radius as u128) * (radius as u128);
        let mut sum: u128 = 0;
        let mut i: usize = 0;
        while i < self.coordinates.len()
            invariant
                i <= self@.len(),
                self@.len() == center@.len(),
                limit == radius * radius,
                sum == sq_dist(self@, center@, i as nat),
                sum <= limit,
            decreases self@.len() - i,
        {
            let a = self.coordinates[i];
            let b = center.coordinates[i];
            let d: u64 = if a < b { b - a } else { a - b };
            assert((d as u128) * (d as u128) <= u128::MAX) by (nonlinear_arith)
                requires d <= u64::MAX;
            let d2: u128 = (d as u128) * (d as u128);
            assert(sq_dist(self@, center@, (i + 1) as nat) == sum + d2);
            if d2 > limit - sum {
                proof {
                    lemma_sq_dist_monotonic(self@, center@, (i + 1) as nat, self@.len());
                }
                return false;
            }
            sum = sum + d2;
            i += 1;
        }
        true
    }
}

} // verus!
