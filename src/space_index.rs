//! One resolution level: the records of a reference space, keyed by encoded
//! position, with point, range and reverse lookups.

use vstd::prelude::*;

use crate::error::Error;
use crate::coordinate::Coordinate;
use crate::position::{abs_diff, all_le, position_cmp, sq_dist, within, Position};
use crate::shape::{views, Shape};
use std::cmp::Ordering;

verus! {

/// The fields stored beside a key: the reference space and the offset of the
/// identifier in its dataset's properties table.
#[derive(Clone, Debug)]
pub struct SpaceFields {
    space_id: String,
    value: usize,
}

impl SpaceFields {
    /// Name of the reference space.
    pub closed spec fn spec_space_id(&self) -> Seq<char> {
        self.space_id@
    }

    /// Offset of the identifier.
    pub closed spec fn spec_value(&self) -> usize {
        self.value
    }

    /// Fields for the identifier at `value` in space `space_id`.
    pub fn new(space_id: &str, value: usize) -> (r: SpaceFields)
        ensures
            r.spec_space_id() == space_id@,
            r.spec_value() == value,
    {
        SpaceFields { space_id: space_id.to_owned(), value }
    }

    /// Offset of the identifier.
    pub fn value(&self) -> (r: usize)
        ensures
            r == self.spec_value(),
    {
        self.value
    }

    /// Replace the offset of the identifier.
    pub fn set_value(&mut self, value: usize)
        ensures
            final(self).spec_value() == value,
            final(self).spec_space_id() == old(self).spec_space_id(),
    {
        self.value = value;
    }

    /// Name of the reference space.
    pub fn space_id(&self) -> (r: &String)
        ensures
            r@ == self.spec_space_id(),
    {
        &self.space_id
    }
}

/// A position tagged with the reference space it is expressed in and the
/// offset of its identifier.
#[derive(Clone, Debug)]
pub struct SpaceSetObject {
    space_id: String,
    position: Position,
    value: usize,
}

impl SpaceSetObject {
    /// Name of the reference space.
    pub closed spec fn spec_space_id(&self) -> Seq<char> {
        self.space_id@
    }

    /// The position.
    pub closed spec fn spec_position(&self) -> Seq<u64> {
        self.position@
    }

    /// Offset of the identifier.
    pub closed spec fn spec_value(&self) -> usize {
        self.value
    }

    /// An object at `position` in space `reference_space`, for the
    /// identifier at offset `value`.
    pub fn new(reference_space: &str, position: Position, value: usize) -> (r: SpaceSetObject)
        ensures
            r.spec_space_id() == reference_space@,
            r.spec_position() == position@,
            r.spec_value() == value,
    {
        SpaceSetObject { space_id: reference_space.to_owned(), position, value }
    }

    /// Name of the reference space.
    pub fn space_id(&self) -> (r: &String)
        ensures
            r@ == self.spec_space_id(),
    {
        &self.space_id
    }

    /// The position.
    pub fn position(&self) -> (r: &Position)
        ensures
            r@ == self.spec_position(),
    {
        &self.position
    }

    /// Replace the position.
    pub fn set_position(&mut self, pos: Position)
        ensures
            final(self).spec_position() == pos@,
            final(self).spec_space_id() == old(self).spec_space_id(),
            final(self).spec_value() == old(self).spec_value(),
    {
        self.position = pos;
    }

    /// Offset of the identifier.
    pub fn value(&self) -> (r: usize)
        ensures
            r == self.spec_value(),
    {
        self.value
    }

    /// Replace the offset of the identifier.
    pub fn set_value(&mut self, value: usize)
        ensures
            final(self).spec_value() == value,
            final(self).spec_space_id() == old(self).spec_space_id(),
            final(self).spec_position() == old(self).spec_position(),
    {
        self.value = value;
    }

    /// The fields stored beside the position in an index.
    pub fn fields(&self) -> (r: SpaceFields)
        ensures
            r.spec_space_id() == self.spec_space_id(),
            r.spec_value() == self.spec_value(),
    {
        SpaceFields::new(self.space_id.as_str(), self.value)
    }
}

/// A record of an index: encoded key and identifier offset.
pub type Entry = (Seq<u64>, usize);

/// The predicate "the record is for the identifier at offset `v`".
pub open spec fn with_value(v: usize) -> spec_fn(Entry) -> bool {
    |e: Entry| e.1 == v
}

/// The predicate "the record's key is `k`".
pub open spec fn at_key(k: Seq<u64>) -> spec_fn(Entry) -> bool {
    |e: Entry| e.0 == k
}

/// The predicate "the record's key lies in the box from `lo` to `hi`".
pub open spec fn between(lo: Seq<u64>, hi: Seq<u64>) -> spec_fn(Entry) -> bool {
    |e: Entry| all_le(lo, e.0) && all_le(e.0, hi)
}

/// The views of a list of keyed records.
pub open spec fn entry_views(rs: Seq<(Position, usize)>) -> Seq<Entry> {
    rs.map_values(|e: (Position, usize)| (e.0@, e.1))
}

/// Coordinate-wise maximum.
pub open spec fn max_seq(a: Seq<u64>, b: Seq<u64>) -> Seq<u64> {
    Seq::new(a.len(), |i: int| if a[i] < b[i] { b[i] } else { a[i] })
}

/// Coordinate-wise minimum.
pub open spec fn min_seq(a: Seq<u64>, b: Seq<u64>) -> Seq<u64> {
    Seq::new(a.len(), |i: int| if a[i] < b[i] { a[i] } else { b[i] })
}

/// The box from `lo` to `hi` cut down to the view port, if one is given.
/// The view port must be a box of the same dimension, and the cut box must
/// not lie wholly below its lower corner.
pub open spec fn clip(view_port: Option<Shape>, lo: Seq<u64>, hi: Seq<u64>) -> Result<
    (Seq<u64>, Seq<u64>),
    Error,
> {
    match view_port {
        None => Ok((lo, hi)),
        Some(Shape::BoundingBox(vl, vh)) => {
            if lo.len() != vl@.len() || hi.len() != vh@.len() {
                Err(Error::DimensionMismatch)
            } else {
                let l = max_seq(lo, vl@);
                let h = min_seq(hi, vh@);
                if position_cmp(h, l) == Some(Ordering::Less) {
                    Err(Error::EmptyIntersection)
                } else {
                    Ok((l, h))
                }
            }
        },
        Some(_) => Err(Error::InvalidViewport),
    }
}

/// One resolution level of a reference space.
///
/// Its keys have `shift` low bits dropped from each coordinate; `scale`
/// gives that shift per axis.
#[derive(Clone, Debug)]
pub struct SpaceIndex {
    shift: u32,
    scale: Vec<u32>,
    records: Vec<(Position, usize)>,
}

impl SpaceIndex {
    /// The records, key and identifier offset, in storage order.
    pub closed spec fn entries(&self) -> Seq<Entry> {
        entry_views(self.records@)
    }

    /// Low bits dropped from each coordinate of the keys.
    pub closed spec fn spec_shift(&self) -> u32 {
        self.shift
    }

    /// Bits dropped from each axis.
    pub closed spec fn spec_scale(&self) -> Seq<u32> {
        self.scale@
    }

    /// Records whose key lies in the box from `lo` to `hi`, bounds included.
    pub open spec fn in_box(&self, lo: Seq<u64>, hi: Seq<u64>) -> Seq<Entry> {
        self.entries().filter(between(lo, hi))
    }

    /// What a shape query returns, or why it fails, for a shape and an
    /// optional view port in the encoded space of this level.
    pub open spec fn shape_query(&self, shape: Shape, view_port: Option<Shape>) -> Result<
        Seq<Entry>,
        Error,
    > {
        match shape {
            Shape::Point(p) => {
                if view_port is Some && !view_port->0.spec_contains(p@) {
                    Err(Error::OutOfViewport)
                } else {
                    Ok(self.entries().filter(at_key(p@)))
                }
            },
            Shape::BoundingBox(lo, hi) => match clip(view_port, lo@, hi@) {
                Err(e) => Err(e),
                Ok(b) => Ok(self.in_box(b.0, b.1)),
            },
            Shape::HyperSphere(c, r) => match clip(view_port, shape.spec_mbb().0, shape.spec_mbb().1) {
                Err(e) => Err(e),
                Ok(b) => Ok(
                    self.in_box(b.0, b.1).filter(
                        |e: Entry| e.0.len() == c@.len() && within(e.0, c@, r.value()),
                    ),
                ),
            },
        }
    }

    /// A level over `records`, whose keys have `shift` bits dropped, with
    /// the given per-axis scale.
    pub fn new(shift: u32, scale: Vec<u32>, records: Vec<(Position, usize)>) -> (r: SpaceIndex)
        ensures
            r.spec_shift() == shift,
            r.spec_scale() == scale@,
            r.entries() == entry_views(records@),
    {
        SpaceIndex { shift, scale, records }
    }

    /// Low bits dropped from each coordinate of the keys.
    pub fn shift(&self) -> (r: u32)
        ensures
            r == self.spec_shift(),
    {
        self.shift
    }

    /// Bits dropped from each axis.
    pub fn scale(&self) -> (r: &Vec<u32>)
        ensures
            r@ == self.spec_scale(),
    {
        &self.scale
    }

    /// Number of records.
    pub fn len(&self) -> (r: usize)
        ensures
            r == self.entries().len(),
    {
        self.records.len()
    }

    /// Identifier offsets of the records whose key is `key`.
    pub fn find(&self, key: &Position) -> (r: Vec<usize>)
        ensures
            r@ == self.entries().filter(at_key(key@)).map_values(|e: Entry| e.1),
    {
        let ghost pred = at_key(key@);
        let mut out: Vec<usize> = Vec::new();
        let mut i: usize = 0;
        proof {
            reveal(Seq::filter);
            assert(self.entries().subrange(0, 0) =~= Seq::<Entry>::empty());
            assert(out@ =~= self.entries().subrange(0, 0).filter(pred).map_values(|e: Entry| e.1));
        }
        while i < self.records.len()
            invariant
                i <= self.entries().len(),
                pred == at_key(key@),
                out@ == self.entries().subrange(0, i as int).filter(pred).map_values(|e: Entry| e.1),
            decreases self.entries().len() - i,
        {
            proof {
                reveal(Seq::filter);
            }
            let ghost sub = self.entries().subrange(0, i + 1);
            assert(sub.drop_last() =~= self.entries().subrange(0, i as int));
            assert(sub.last() == (self.records@[i as int].0@, self.records@[i as int].1));
            if self.records[i].0.equals(key) {
                out.push(self.records[i].1);
                assert(out@ =~= sub.filter(pred).map_values(|e: Entry| e.1));
            }
            i += 1;
        }
        assert(self.entries().subrange(0, i as int) =~= self.entries());
        out
    }

    /// Records whose key lies in the box from `start` to `end`, bounds included.
    pub fn find_range(&self, start: &Position, end: &Position) -> (r: Vec<(Position, usize)>)
        ensures
            entry_views(r@) == self.in_box(start@, end@),
    {
        let ghost pred = between(start@, end@);
        let mut out: Vec<(Position, usize)> = Vec::new();
        let mut i: usize = 0;
        proof {
            reveal(Seq::filter);
            assert(self.entries().subrange(0, 0) =~= Seq::<Entry>::empty());
            assert(entry_views(out@) =~= self.entries().subrange(0, 0).filter(pred));
        }
        while i < self.records.len()
            invariant
                i <= self.entries().len(),
                pred == between(start@, end@),
                entry_views(out@) == self.entries().subrange(0, i as int).filter(pred),
            decreases self.entries().len() - i,
        {
            proof {
                reveal(Seq::filter);
            }
            let ghost sub = self.entries().subrange(0, i + 1);
            assert(sub.drop_last() =~= self.entries().subrange(0, i as int));
            assert(sub.last() == (self.records@[i as int].0@, self.records@[i as int].1));
            let k = &self.records[i].0;
            if start.le(k) && k.le(end) {
                let ghost before = entry_views(out@);
                out.push((k.duplicate(), self.records[i].1));
                assert(entry_views(out@) =~= before.push(sub.last()));
            }
            i += 1;
        }
        assert(self.entries().subrange(0, i as int) =~= self.entries());
        out
    }

    /// Keys of the records for the identifier at offset `value`.
    pub fn find_by_value(&self, value: usize) -> (r: Vec<Position>)
        ensures
            views(r@) == self.entries().filter(with_value(value)).map_values(|e: Entry| e.0),
    {
        let ghost pred = with_value(value);
        let mut out: Vec<Position> = Vec::new();
        let mut i: usize = 0;
        proof {
            reveal(Seq::filter);
            assert(self.entries().subrange(0, 0) =~= Seq::<Entry>::empty());
            assert(views(out@) =~= self.entries().subrange(0, 0).filter(pred).map_values(
                |e: Entry| e.0,
            ));
        }
        while i < self.records.len()
            invariant
                i <= self.entries().len(),
                pred == with_value(value),
                views(out@) == self.entries().subrange(0, i as int).filter(pred).map_values(
                    |e: Entry| e.0,
                ),
            decreases self.entries().len() - i,
        {
            proof {
                reveal(Seq::filter);
            }
            let ghost sub = self.entries().subrange(0, i + 1);
            assert(sub.drop_last() =~= self.entries().subrange(0, i as int));
            assert(sub.last() == (self.records@[i as int].0@, self.records@[i as int].1));
            if self.records[i].1 == value {
                let ghost before = views(out@);
                out.push(self.records[i].0.duplicate());
                assert(views(out@) =~= before.push(sub.last().0));
                assert(views(out@) =~= sub.filter(pred).map_values(|e: Entry| e.0));
            }
            i += 1;
        }
        assert(self.entries().subrange(0, i as int) =~= self.entries());
        out
    }

    /// Records whose key is exactly `key`, key included.
    pub(crate) fn find_entries(&self, key: &Position) -> (r: Vec<(Position, usize)>)
        ensures
            entry_views(r@) == self.entries().filter(at_key(key@)),
    {
        let ghost pred = at_key(key@);
        let mut out: Vec<(Position, usize)> = Vec::new();
        let mut i: usize = 0;
        proof {
            reveal(Seq::filter);
            assert(self.entries().subrange(0, 0) =~= Seq::<Entry>::empty());
            assert(entry_views(out@) =~= self.entries().subrange(0, 0).filter(pred));
        }
        while i < self.records.len()
            invariant
                i <= self.entries().len(),
                pred == at_key(key@),
                entry_views(out@) == self.entries().subrange(0, i as int).filter(pred),
            decreases self.entries().len() - i,
        {
            proof {
                reveal(Seq::filter);
            }
            let ghost sub = self.entries().subrange(0, i + 1);
            assert(sub.drop_last() =~= self.entries().subrange(0, i as int));
            assert(sub.last() == (self.records@[i as int].0@, self.records@[i as int].1));
            if self.records[i].0.equals(key) {
                let ghost before = entry_views(out@);
                out.push((self.records[i].0.duplicate(), self.records[i].1));
                assert(entry_views(out@) =~= before.push(sub.last()));
            }
            i += 1;
        }
        assert(self.entries().subrange(0, i as int) =~= self.entries());
        out
    }

    /// Records of a shape query, in encoded coordinates of this level: a
    /// point is looked up exactly, unless the view port excludes it; a box
    /// is cut to the view port and looked up as a range; a sphere is looked
    /// up as its bounding box cut to the view port, then filtered by radius.
    pub fn find_by_shape(&self, shape: &Shape, view_port: &Option<Shape>) -> (r: Result<
        Vec<(Position, usize)>,
        Error,
    >)
        ensures
            match r {
                Ok(v) => self.shape_query(*shape, *view_port) == Ok::<Seq<Entry>, Error>(
                    entry_views(v@),
                ),
                Err(e) => self.shape_query(*shape, *view_port) == Err::<Seq<Entry>, Error>(e),
            },
    {
        match shape {
            Shape::Point(p) => {
                if let Some(vp) = view_port {
                    if !vp.contains(p) {
                        return Err(Error::OutOfViewport);
                    }
                }
                Ok(self.find_entries(p))
            },
            Shape::BoundingBox(bl, bh) => {
                match clip_box(view_port, bl.duplicate(), bh.duplicate()) {
                    Err(e) => Err(e),
                    Ok((lo, hi)) => Ok(self.find_range(&lo, &hi)),
                }
            },
            Shape::HyperSphere(c, radius) => {
                let (bl, bh) = shape.get_mbb();
                match clip_box(view_port, bl, bh) {
                    Err(e) => Err(e),
                    Ok((lo, hi)) => {
                        let found = self.find_range(&lo, &hi);
                        let rv = radius.u64();
                        let ghost all = entry_views(found@);
                        let ghost pred = |e: Entry| e.0.len() == c@.len() && within(e.0, c@, rv);
                        let mut out: Vec<(Position, usize)> = Vec::new();
                        let mut i: usize = 0;
                        proof {
                            reveal(Seq::filter);
                            assert(all.subrange(0, 0) =~= Seq::<Entry>::empty());
                            assert(entry_views(out@) =~= all.subrange(0, 0).filter(pred));
                        }
                        while i < found.len()
                            invariant
                                i <= all.len(),
                                all == entry_views(found@),
                                pred == (|e: Entry| e.0.len() == c@.len() && within(e.0, c@, rv)),
                                entry_views(out@) == all.subrange(0, i as int).filter(pred),
                            decreases all.len() - i,
                        {
                            proof {
                                reveal(Seq::filter);
                            }
                            let ghost sub = all.subrange(0, i + 1);
                            assert(sub.drop_last() =~= all.subrange(0, i as int));
                            assert(sub.last() == (found@[i as int].0@, found@[i as int].1));
                            let k = &found[i].0;
                            if k.dimensions() == c.dimensions() && k.within_radius(c, rv) {
                                let ghost before = entry_views(out@);
                                out.push((k.duplicate(), found[i].1));
                                assert(entry_views(out@) =~= before.push(sub.last()));
                            }
                            i += 1;
                        }
                        assert(all.subrange(0, i as int) =~= all);
                        Ok(out)
                    },
                }
            },
        }
    }
}

/// The box from `lo` to `hi` cut down to the view port, as `clip` states.
fn clip_box(view_port: &Option<Shape>, lo: Position, hi: Position) -> (r: Result<
    (Position, Position),
    Error,
>)
    ensures
        match r {
            Ok(b) => clip(*view_port, lo@, hi@) == Ok::<(Seq<u64>, Seq<u64>), Error>((b.0@, b.1@)),
            Err(e) => clip(*view_port, lo@, hi@) == Err::<(Seq<u64>, Seq<u64>), Error>(e),
        },
{
    match view_port {
        None => Ok((lo, hi)),
        Some(Shape::BoundingBox(vl, vh)) => {
            if lo.dimensions() != vl.dimensions() || hi.dimensions() != vh.dimensions() {
                return Err(Error::DimensionMismatch);
            }
            let l = lo.max_each(vl);
            let h = hi.min_each(vh);
            assert(l@ =~= max_seq(lo@, vl@));
            assert(h@ =~= min_seq(hi@, vh@));
            match h.compare(&l) {
                Some(Ordering::Less) => Err(Error::EmptyIntersection),
                _ => Ok((l, h)),
            }
        },
        Some(_) => Err(Error::InvalidViewport),
    }
}

/// Filters that agree on every element of `s` keep the same elements.
proof fn lemma_filter_agree(s: Seq<Entry>, p: spec_fn(Entry) -> bool, q: spec_fn(Entry) -> bool)
    requires
        forall|i: int| 0 <= i < s.len() ==> (p(#[trigger] s[i]) <==> q(s[i])),
    ensures
        s.filter(p) == s.filter(q),
    decreases s.len(),
{
    reveal(Seq::filter);
    if s.len() > 0 {
        assert forall|i: int| 0 <= i < s.drop_last().len() implies (p(#[trigger] s.drop_last()[i])
            <==> q(s.drop_last()[i])) by {
            assert(s.drop_last()[i] == s[i]);
        }
        lemma_filter_agree(s.drop_last(), p, q);
    }
}

/// Filtering again by a predicate that every kept element meets keeps all.
proof fn lemma_filter_again(s: Seq<Entry>, p: spec_fn(Entry) -> bool, q: spec_fn(Entry) -> bool)
    requires
        forall|e: Entry| #[trigger] p(e) ==> q(e),
    ensures
        s.filter(p).filter(q) == s.filter(p),
    decreases s.len(),
{
    reveal(Seq::filter);
    if s.len() > 0 {
        lemma_filter_again(s.drop_last(), p, q);
        let t = s.drop_last().filter(p);
        if p(s.last()) {
            assert(t.push(s.last()).drop_last() =~= t);
        }
    }
}

/// A position is at distance zero from itself.
proof fn lemma_sq_dist_self(a: Seq<u64>, n: nat)
    requires
        n <= a.len(),
    ensures
        sq_dist(a, a, n) == 0,
    decreases n,
{
    if n > 0 {
        lemma_sq_dist_self(a, (n - 1) as nat);
        assert(abs_diff(a[n - 1], a[n - 1]) == 0);
    }
}

/// The records in the box from `p` to `p` are those whose key is `p`.
proof fn lemma_box_of_one_point(idx: SpaceIndex, p: Seq<u64>)
    ensures
        idx.in_box(p, p) == idx.entries().filter(at_key(p)),
{
    let s = idx.entries();
    assert forall|i: int| 0 <= i < s.len() implies (between(p, p)(#[trigger] s[i]) <==> at_key(p)(
        s[i],
    )) by {
        if all_le(p, s[i].0) && all_le(s[i].0, p) {
            assert(s[i].0 =~= p);
        }
    }
    lemma_filter_agree(s, between(p, p), at_key(p));
}

/// A box whose two corners are one position selects exactly the records
/// at that position, as a point query does.
pub proof fn lemma_point_box_is_point(idx: SpaceIndex, p: Position)
    ensures
        idx.shape_query(Shape::BoundingBox(p, p), None) == idx.shape_query(Shape::Point(p), None),
{
    lemma_box_of_one_point(idx, p@);
}

/// A sphere of radius zero selects exactly the records at its center, as a
/// point query does.
pub proof fn lemma_zero_sphere_is_point(idx: SpaceIndex, c: Position, r: Coordinate)
    requires
        r.value() == 0,
    ensures
        idx.shape_query(Shape::HyperSphere(c, r), None) == idx.shape_query(Shape::Point(c), None),
{
    let sphere = Shape::HyperSphere(c, r);
    assert(sphere.spec_mbb().0 =~= c@);
    assert(sphere.spec_mbb().1 =~= c@);
    lemma_box_of_one_point(idx, c@);
    lemma_sq_dist_self(c@, c@.len());
    let near = |e: Entry| e.0.len() == c@.len() && within(e.0, c@, r.value());
    lemma_filter_again(idx.entries(), at_key(c@), near);
}

} // verus!
