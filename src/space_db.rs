//! The resolution pyramid of one reference space of a dataset: how the
//! levels are built, how a query selects one, and the queries on it.

use vstd::arithmetic::div_mod::lemma_div_denominator;
use vstd::arithmetic::power2::{lemma_pow2_adds, lemma_pow2_pos, pow2};
use vstd::bits::lemma_u64_shr_is_div;
use vstd::prelude::*;

use crate::error::Error;
use crate::position::Position;
use crate::shape::{views, Shape};
use crate::space_index::{at_key, entry_views, with_value, Entry, SpaceIndex, SpaceSetObject};

verus! {

/// Each coordinate with its `s` low bits dropped.
pub open spec fn shifted(p: Seq<u64>, s: u64) -> Seq<u64> {
    p.map_values(|x: u64| x >> s)
}

/// A record with its key reduced by `s` bits.
pub open spec fn reduced(e: Entry, s: u64) -> Entry {
    (shifted(e.0, s), e.1)
}

/// `x` is some record of `input` reduced by `s` bits.
pub open spec fn comes_from(x: Entry, input: Seq<Entry>, s: u64) -> bool {
    exists|j: int| 0 <= j < input.len() && x == #[trigger] reduced(input[j], s)
}

/// Every record of `level` is a record of `input` reduced by `s` bits, and
/// every record of `input`, so reduced, is in `level`.
pub open spec fn covers(level: Seq<Entry>, input: Seq<Entry>, s: u64) -> bool {
    &&& forall|i: int| 0 <= i < level.len() ==> comes_from(#[trigger] level[i], input, s)
    &&& forall|j: int| 0 <= j < input.len() ==> level.contains(#[trigger] reduced(input[j], s))
}

/// `level` holds each record of `input` reduced by `s` bits, each once.
pub open spec fn holds_reduced(level: Seq<Entry>, input: Seq<Entry>, s: u64) -> bool {
    level.no_duplicates() && covers(level, input, s)
}

/// The distinct records of `input` reduced by `s` bits.
pub open spec fn reduced_set(input: Seq<Entry>, s: u64) -> Set<Entry> {
    input.map_values(|e: Entry| reduced(e, s)).to_set()
}

/// How many distinct records remain once `s` bits are dropped.
pub open spec fn card(input: Seq<Entry>, s: u64) -> nat {
    reduced_set(input, s).len()
}

/// Shifts of the levels kept after the full resolution, when `count` bits
/// are dropped so far, `size` records remain and a level is kept if it holds
/// at most `target` records: one bit more at a time, until at most `max`
/// records remain or 31 bits are dropped.
pub open spec fn auto_shifts(input: Seq<Entry>, max: nat, count: nat, size: nat, target: nat) -> Seq<
    u32,
>
    decreases 31 - count,
{
    if count >= 31 || size <= max {
        Seq::empty()
    } else {
        let c = count + 1;
        let k = card(input, c as u64);
        if k <= target {
            seq![c as u32] + auto_shifts(input, max, c, k, k / 2)
        } else {
            auto_shifts(input, max, c, k, target)
        }
    }
}

/// The shifts of a list of levels, in order.
pub open spec fn shifts_of(levels: Seq<SpaceIndex>) -> Seq<u32> {
    levels.map_values(|l: SpaceIndex| l.spec_shift())
}

/// A level that holds each reduced record once has as many records as
/// there are distinct reduced records.
proof fn lemma_level_len(level: Seq<Entry>, input: Seq<Entry>, s: u64)
    requires
        holds_reduced(level, input, s),
    ensures
        level.len() == card(input, s),
{
    level.unique_seq_to_set();
    let mapped = input.map_values(|e: Entry| reduced(e, s));
    assert forall|x: Entry| level.to_set().contains(x) <==> reduced_set(input, s).contains(x) by {
        if level.contains(x) {
            let i = choose|i: int| 0 <= i < level.len() && level[i] == x;
            assert(comes_from(level[i], input, s));
            let j = choose|j: int| 0 <= j < input.len() && level[i] == reduced(input[j], s);
            assert(mapped[j] == x);
        }
        if mapped.contains(x) {
            let j = choose|j: int| 0 <= j < mapped.len() && mapped[j] == x;
            assert(level.contains(reduced(input[j], s)));
        }
    }
    assert(level.to_set() =~= reduced_set(input, s));
}

/// The records of a list of objects: position and identifier offset.
pub open spec fn object_entries(objects: Seq<SpaceSetObject>) -> Seq<Entry> {
    objects.map_values(|o: SpaceSetObject| (o.spec_position(), o.spec_value()))
}

/// A shift by zero bits keeps a key.
proof fn lemma_shift_zero(p: Seq<u64>)
    ensures
        shifted(p, 0) == p,
{
    assert forall|i: int| 0 <= i < p.len() implies shifted(p, 0)[i] == p[i] by {
        let x = p[i];
        assert(x >> 0u64 == x) by (bit_vector);
    }
    assert(shifted(p, 0) =~= p);
}

/// Dropping `a` bits, then `b` bits, drops `a + b` bits.
proof fn lemma_shift_twice(p: Seq<u64>, a: u64, b: u64)
    requires
        a + b < 64,
    ensures
        shifted(shifted(p, a), b) == shifted(p, (a + b) as u64),
{
    assert forall|i: int| 0 <= i < p.len() implies shifted(shifted(p, a), b)[i] == shifted(
        p,
        (a + b) as u64,
    )[i] by {
        let x = p[i];
        let y = x >> a;
        lemma_u64_shr_is_div(x, a);
        lemma_u64_shr_is_div(y, b);
        lemma_u64_shr_is_div(x, (a + b) as u64);
        lemma_pow2_pos(a as nat);
        lemma_pow2_pos(b as nat);
        lemma_pow2_adds(a as nat, b as nat);
        lemma_div_denominator(x as int, pow2(a as nat) as int, pow2(b as nat) as int);
    }
    assert(shifted(shifted(p, a), b) =~= shifted(p, (a + b) as u64));
}

/// A list covers itself with no bits dropped.
proof fn lemma_covers_self(input: Seq<Entry>)
    ensures
        covers(input, input, 0),
{
    assert forall|i: int| 0 <= i < input.len() implies comes_from(#[trigger] input[i], input, 0) by {
        lemma_shift_zero(input[i].0);
        assert(input[i] == reduced(input[i], 0));
    }
    assert forall|j: int| 0 <= j < input.len() implies input.contains(
        #[trigger] reduced(input[j], 0),
    ) by {
        lemma_shift_zero(input[j].0);
        assert(input[j] == reduced(input[j], 0));
    }
}

/// Reducing a level that covers `input` at `a` bits by `b` more bits covers
/// `input` at `a + b` bits.
proof fn lemma_covers_compose(next: Seq<Entry>, cur: Seq<Entry>, input: Seq<Entry>, a: u64, b: u64)
    requires
        a + b < 64,
        covers(cur, input, a),
        covers(next, cur, b),
    ensures
        covers(next, input, (a + b) as u64),
{
    let s = (a + b) as u64;
    assert forall|i: int| 0 <= i < next.len() implies comes_from(#[trigger] next[i], input, s) by {
        assert(comes_from(next[i], cur, b));
        let k = choose|k: int| 0 <= k < cur.len() && next[i] == reduced(cur[k], b);
        assert(comes_from(cur[k], input, a));
        let j = choose|j: int| 0 <= j < input.len() && cur[k] == reduced(input[j], a);
        lemma_shift_twice(input[j].0, a, b);
        assert(next[i] == reduced(input[j], s));
    }
    assert forall|j: int| 0 <= j < input.len() implies next.contains(
        #[trigger] reduced(input[j], s),
    ) by {
        assert(cur.contains(reduced(input[j], a)));
        let k = choose|k: int| 0 <= k < cur.len() && cur[k] == reduced(input[j], a);
        assert(next.contains(reduced(cur[k], b)));
        lemma_shift_twice(input[j].0, a, b);
    }
}

/// Where the record `(p, v)` stands in `records`, if it does.
fn index_of(records: &Vec<(Position, usize)>, p: &Position, v: usize) -> (r: Option<usize>)
    ensures
        match r {
            Some(i) => i < records@.len() && entry_views(records@)[i as int] == (p@, v),
            None => !entry_views(records@).contains((p@, v)),
        },
{
    let mut i: usize = 0;
    while i < records.len()
        invariant
            i <= records@.len(),
            forall|m: int| 0 <= m < i ==> entry_views(records@)[m] != (p@, v),
        decreases records@.len() - i,
    {
        if records[i].1 == v && records[i].0.equals(p) {
            return Some(i);
        }
        i += 1;
    }
    None
}

/// A copy of a list of records.
fn copy_records(records: &Vec<(Position, usize)>) -> (r: Vec<(Position, usize)>)
    ensures
        entry_views(r@) == entry_views(records@),
{
    let mut out: Vec<(Position, usize)> = Vec::new();
    let mut i: usize = 0;
    while i < records.len()
        invariant
            i <= records@.len(),
            entry_views(out@) == entry_views(records@).subrange(0, i as int),
        decreases records@.len() - i,
    {
        let ghost before = entry_views(out@);
        out.push((records[i].0.duplicate(), records[i].1));
        assert(entry_views(out@) =~= before.push(entry_views(records@)[i as int]));
        i += 1;
        assert(entry_views(out@) =~= entry_views(records@).subrange(0, i as int));
    }
    assert(entry_views(records@).subrange(0, i as int) =~= entry_views(records@));
    out
}

/// The records with `by` low bits dropped from each key, each distinct
/// record once, in order of first occurrence.
fn reduce_dedup(records: &Vec<(Position, usize)>, by: u32) -> (r: Vec<(Position, usize)>)
    requires
        by < 64,
    ensures
        holds_reduced(entry_views(r@), entry_views(records@), by as u64),
        r@.len() <= records@.len(),
{
    let ghost input = entry_views(records@);
    let ghost s = by as u64;
    let mut out: Vec<(Position, usize)> = Vec::new();
    let ghost mut src: Seq<int> = Seq::empty();
    let ghost mut at: Seq<int> = Seq::empty();
    let mut j: usize = 0;
    while j < records.len()
        invariant
            j <= input.len(),
            input == entry_views(records@),
            s == by as u64,
            by < 64,
            entry_views(out@).no_duplicates(),
            src.len() == out@.len(),
            at.len() == j,
            out@.len() <= j,
            forall|i: int|
                0 <= i < out@.len() ==> 0 <= #[trigger] src[i] < j && entry_views(out@)[i]
                    == reduced(input[src[i]], s),
            forall|k: int|
                0 <= k < j ==> 0 <= #[trigger] at[k] < out@.len() && entry_views(out@)[at[k]]
                    == reduced(input[k], s),
        decreases input.len() - j,
    {
        let p = records[j].0.reduce_precision(by);
        let v = records[j].1;
        assert(p@ =~= shifted(input[j as int].0, s));
        match index_of(&out, &p, v) {
            Some(i) => {
                proof {
                    at = at.push(i as int);
                }
            },
            None => {
                let ghost before = entry_views(out@);
                out.push((p, v));
                assert(entry_views(out@) =~= before.push(reduced(input[j as int], s)));
                proof {
                    src = src.push(j as int);
                    at = at.push(before.len() as int);
                    assert forall|a: int, b: int|
                        0 <= a < entry_views(out@).len() && 0 <= b < entry_views(out@).len() && a
                            != b implies entry_views(out@)[a] != entry_views(out@)[b] by {
                        if a == before.len() {
                            assert(before[b] == entry_views(out@)[b]);
                        } else if b == before.len() {
                            assert(before[a] == entry_views(out@)[a]);
                        }
                    }
                }
            },
        }
        j += 1;
    }
    proof {
        let level = entry_views(out@);
        assert forall|i: int| 0 <= i < level.len() implies comes_from(#[trigger] level[i], input, s) by {
            assert(0 <= src[i] < input.len());
            assert(level[i] == reduced(input[src[i]], s));
        }
        assert forall|k: int| 0 <= k < input.len() implies level.contains(
            #[trigger] reduced(input[k], s),
        ) by {
            assert(0 <= at[k] < level.len());
        }
    }
    out
}

/// The distinct values of `vals`, in increasing order.
fn sorted_unique(vals: &Vec<u32>) -> (r: Vec<u32>)
    ensures
        forall|a: int, b: int| 0 <= a < b < r@.len() ==> r@[a] < r@[b],
        forall|x: u32| r@.contains(x) <==> vals@.contains(x),
{
    let mut out: Vec<u32> = Vec::new();
    let mut j: usize = 0;
    while j < vals.len()
        invariant
            j <= vals@.len(),
            forall|a: int, b: int| 0 <= a < b < out@.len() ==> out@[a] < out@[b],
            forall|x: u32| out@.contains(x) <==> vals@.subrange(0, j as int).contains(x),
        decreases vals@.len() - j,
    {
        let v = vals[j];
        let mut k: usize = 0;
        while k < out.len() && out[k] < v
            invariant
                k <= out@.len(),
                forall|m: int| 0 <= m < k ==> out@[m] < v,
            decreases out@.len() - k,
        {
            k += 1;
        }
        let ghost prev = vals@.subrange(0, j as int);
        assert(vals@.subrange(0, j + 1) =~= prev.push(v));
        if k < out.len() && out[k] == v {
            assert forall|x: u32| out@.contains(x) <==> prev.push(v).contains(x) by {
                if prev.push(v).contains(x) && x != v {
                    let i = choose|i: int| 0 <= i < prev.push(v).len() && prev.push(v)[i] == x;
                    assert(prev[i] == x);
                }
                if out@.contains(x) {
                    assert(prev.contains(x));
                    let i = choose|i: int| 0 <= i < prev.len() && prev[i] == x;
                    assert(prev.push(v)[i] == x);
                }
            }
        } else {
            let ghost before = out@;
            out.insert(k, v);
            assert(out@ == before.insert(k as int, v));
            assert forall|a: int, b: int| 0 <= a < b < out@.len() implies out@[a] < out@[b] by {
                if b < k {
                } else if b == k {
                } else if a < k {
                    assert(out@[b] == before[b - 1]);
                    if k < before.len() {
                        assert(before[k as int] > v);
                        if b - 1 > k {
                            assert(before[k as int] < before[b - 1]);
                        }
                    }
                } else if a == k {
                    assert(out@[b] == before[b - 1]);
                    assert(before[k as int] > v);
                    if b - 1 > k {
                        assert(before[k as int] < before[b - 1]);
                    }
                } else {
                    assert(out@[a] == before[a - 1]);
                    assert(out@[b] == before[b - 1]);
                }
            }
            assert forall|x: u32| out@.contains(x) <==> prev.push(v).contains(x) by {
                if out@.contains(x) {
                    let i = choose|i: int| 0 <= i < out@.len() && out@[i] == x;
                    if i < k {
                        assert(before[i] == x);
                        assert(before.contains(x));
                    } else if i > k {
                        assert(before[i - 1] == x);
                        assert(before.contains(x));
                    } else {
                        assert(prev.push(v)[prev.len() as int] == x);
                    }
                    if x != v {
                        let m = choose|m: int| 0 <= m < prev.len() && prev[m] == x;
                        assert(prev.push(v)[m] == x);
                    }
                }
                if prev.push(v).contains(x) {
                    let i = choose|i: int| 0 <= i < prev.push(v).len() && prev.push(v)[i] == x;
                    if i < prev.len() {
                        assert(prev[i] == x);
                        assert(before.contains(x));
                        let m = choose|m: int| 0 <= m < before.len() && before[m] == x;
                        if m < k {
                            assert(out@[m] == x);
                        } else {
                            assert(out@[m + 1] == x);
                        }
                    } else {
                        assert(out@[k as int] == x);
                    }
                }
            }
        }
        j += 1;
    }
    assert(vals@.subrange(0, j as int) =~= vals@);
    out
}

/// `n` copies of `s`.
fn uniform_scale(s: u32, n: usize) -> (r: Vec<u32>)
    ensures
        r@ == Seq::new(n as nat, |_i: int| s),
{
    let mut v: Vec<u32> = Vec::new();
    let mut i: usize = 0;
    while i < n
        invariant
            i <= n,
            v@ == Seq::new(i as nat, |_i: int| s),
        decreases n - i,
    {
        v.push(s);
        i += 1;
        assert(v@ =~= Seq::new(i as nat, |_i: int| s));
    }
    v
}

/// Keys of `records`, looked up position by position: for each position in
/// order, the records whose key it is.
pub open spec fn lookup_all(records: Seq<Entry>, positions: Seq<Seq<u64>>) -> Seq<Entry>
    decreases positions.len(),
{
    if positions.len() == 0 {
        Seq::empty()
    } else {
        lookup_all(records, positions.drop_last()) + records.filter(at_key(positions.last()))
    }
}

/// Some level drops `x` bits.
pub open spec fn shift_used(levels: Seq<SpaceIndex>, x: u32) -> bool {
    exists|i: int| 0 <= i < levels.len() && #[trigger] levels[i].spec_shift() == x
}

/// A scale of `dimensions` axes that drops the same number of bits, below
/// 64, on every axis.
pub open spec fn uniform_shift(scale: Seq<u32>, dimensions: usize) -> bool {
    &&& scale.len() == dimensions
    &&& scale.len() >= 1
    &&& scale[0] < 64
    &&& forall|a: int| 0 <= a < scale.len() ==> #[trigger] scale[a] == scale[0]
}

/// Some scale asks for `x` bits on its first axis.
pub open spec fn scale_requested(scales: Seq<Vec<u32>>, x: u32) -> bool {
    exists|k: int| 0 <= k < scales.len() && (#[trigger] scales[k])@[0] == x
}

/// The predicate "the shape holds this position".
pub open spec fn held_by(shape: Shape) -> spec_fn(Seq<u64>) -> bool {
    |p: Seq<u64>| shape.spec_contains(p)
}

/// Query settings for one reference space, in its encoded frame.
#[derive(Clone, Debug)]
pub struct QueryParameters {
    /// Target volume of the query, as the largest `k` for which it is at
    /// most the volume of the space divided by `2^k`.
    pub volume_shift: Option<u32>,
    /// Explicit per-axis scale of the level to use.
    pub resolution: Option<Vec<u32>>,
    /// View port, in encoded coordinates of the space.
    pub view_port: Option<Shape>,
}

/// The levels of one reference space, from the highest resolution (smallest
/// threshold volume) to the lowest.
///
/// The threshold volume of a level is the volume of the space divided by
/// `2^(S - s)`, where `s` is the level's shift and `S` the last level's.
#[derive(Clone, Debug)]
pub struct SpaceDB {
    reference_space: String,
    resolutions: Vec<SpaceIndex>,
}

impl SpaceDB {
    /// Name of the reference space.
    pub closed spec fn spec_name(&self) -> Seq<char> {
        self.reference_space@
    }

    /// The levels, highest resolution first.
    pub closed spec fn levels(&self) -> Seq<SpaceIndex> {
        self.resolutions@
    }

    /// Exponent of the threshold of level `i`: its threshold volume is the
    /// space volume divided by two to this power.
    pub open spec fn spec_threshold_shift(&self, i: int) -> int {
        self.levels().last().spec_shift() - self.levels()[i].spec_shift()
    }

    /// At least one level; shifts strictly increase from level to level,
    /// so thresholds do too; no level has more records than the one before.
    pub open spec fn well_formed(&self) -> bool {
        &&& self.levels().len() >= 1
        &&& forall|i: int| 0 <= i < self.levels().len() ==> #[trigger] self.levels()[i].spec_shift() < 64
        &&& forall|i: int, j: int|
            0 <= i < j < self.levels().len() ==> #[trigger] self.levels()[i].spec_shift()
                < #[trigger] self.levels()[j].spec_shift()
        &&& forall|i: int, j: int|
            0 <= i < j < self.levels().len() ==> #[trigger] self.levels()[i].entries().len()
                >= #[trigger] self.levels()[j].entries().len()
    }

    /// Level `i` can serve a query of volume shift `k`: its threshold is at
    /// least the query volume.
    pub open spec fn fits_volume(&self, i: int, k: u32) -> bool {
        self.spec_threshold_shift(i) <= k
    }

    /// Level `i` has a scale at least `scale` on every axis.
    pub open spec fn fits_scale(&self, i: int, scale: Seq<u32>) -> bool {
        scale.len() == self.levels()[i].spec_scale().len() && forall|a: int|
            0 <= a < scale.len() ==> scale[a] <= #[trigger] self.levels()[i].spec_scale()[a]
    }

    /// The first level from `from` on that can serve volume shift `k`, or
    /// the last level.
    pub open spec fn first_by_volume(&self, from: int, k: u32) -> int
        decreases self.levels().len() - from,
    {
        if from >= self.levels().len() - 1 {
            self.levels().len() - 1
        } else if self.fits_volume(from, k) {
            from
        } else {
            self.first_by_volume(from + 1, k)
        }
    }

    /// The first level from `from` on whose scale is at least `scale`, or
    /// the last level.
    pub open spec fn first_by_scale(&self, from: int, scale: Seq<u32>) -> int
        decreases self.levels().len() - from,
    {
        if from >= self.levels().len() - 1 {
            self.levels().len() - 1
        } else if self.fits_scale(from, scale) {
            from
        } else {
            self.first_by_scale(from + 1, scale)
        }
    }

    /// The level a query uses: by explicit scale if given, else by volume
    /// if given, else the lowest resolution.
    pub open spec fn spec_resolution(&self, parameters: QueryParameters) -> int {
        match parameters.resolution {
            Some(scale) => self.first_by_scale(0, scale@),
            None => match parameters.volume_shift {
                Some(k) => self.first_by_volume(0, k),
                None => self.levels().len() - 1,
            },
        }
    }

    /// Keys of the selected level for the identifier at offset `id`, kept
    /// only where the view port, if any, holds them.
    pub open spec fn spec_get_by_id(&self, id: usize, parameters: QueryParameters) -> Seq<Seq<u64>> {
        let found = self.levels()[self.spec_resolution(parameters)].entries().filter(
            with_value(id),
        ).map_values(|e: Entry| e.0);
        match parameters.view_port {
            Some(vp) => found.filter(held_by(vp)),
            None => found,
        }
    }

    /// Records of the selected level at each of `positions`, in order.
    pub open spec fn spec_get_by_positions(
        &self,
        positions: Seq<Seq<u64>>,
        parameters: QueryParameters,
    ) -> Seq<Entry> {
        lookup_all(self.levels()[self.spec_resolution(parameters)].entries(), positions)
    }

    /// Records of a shape query on the selected level, with the view port.
    pub open spec fn spec_get_by_shape(&self, shape: Shape, parameters: QueryParameters) -> Result<
        Seq<Entry>,
        Error,
    > {
        self.levels()[self.spec_resolution(parameters)].shape_query(shape, parameters.view_port)
    }

    /// Build the levels of a reference space over `space_objects`, whose
    /// positions are encoded in it.
    ///
    /// With `scales`, which give one shift for every axis, one level per
    /// distinct scale, in increasing order, each dropping that many bits.
    /// Without, a level at full resolution that holds every object, then,
    /// if `max_elements` is given, coarser ones: one bit more at a time, a
    /// level is kept when it holds at most half the records of the last kept
    /// one, until at most `max_elements` records remain or 31 bits are
    /// dropped. A level that drops bits holds each reduced record once.
    pub fn new(
        reference_space: &str,
        dimensions: usize,
        space_objects: Vec<SpaceSetObject>,
        scales: Option<Vec<Vec<u32>>>,
        max_elements: Option<usize>,
    ) -> (r: SpaceDB)
        requires
            scales is Some ==> dimensions >= 1 && scales->0@.len() >= 1 && forall|k: int|
                0 <= k < scales->0@.len() ==> uniform_shift(#[trigger] scales->0@[k]@, dimensions),
        ensures
            r.spec_name() == reference_space@,
            r.well_formed(),
            scales is None ==> r.levels()[0].entries() == object_entries(space_objects@),
            forall|i: int|
                0 <= i < r.levels().len() && (scales is Some || i > 0) ==> holds_reduced(
                    (#[trigger] r.levels()[i]).entries(),
                    object_entries(space_objects@),
                    r.levels()[i].spec_shift() as u64,
                ),
            forall|i: int|
                0 <= i < r.levels().len() ==> (#[trigger] r.levels()[i]).spec_scale() == Seq::new(
                    dimensions as nat,
                    |_a: int| r.levels()[i].spec_shift(),
                ),
            match scales {
                Some(sc) => forall|x: u32|
                    #![trigger shift_used(r.levels(), x)]
                    #![trigger scale_requested(sc@, x)]
                    shift_used(r.levels(), x) <==> scale_requested(sc@, x),
                None => {
                    &&& r.levels()[0].spec_shift() == 0
                    &&& max_elements is None ==> r.levels().len() == 1
                    &&& max_elements is Some ==> shifts_of(r.levels()) == seq![0u32] + auto_shifts(
                        object_entries(space_objects@),
                        max_elements->0 as nat,
                        0,
                        space_objects@.len(),
                        space_objects@.len() / 2,
                    )
                    &&& forall|i: int|
                        0 < i < r.levels().len() ==> #[trigger] r.levels()[i].spec_shift() <= 31
                            && 2 * r.levels()[i].entries().len() <= r.levels()[i
                            - 1].entries().len()
                },
            },
    {
        let ghost input = object_entries(space_objects@);
        let mut records: Vec<(Position, usize)> = Vec::new();
        let mut i: usize = 0;
        while i < space_objects.len()
            invariant
                i <= space_objects@.len(),
                input == object_entries(space_objects@),
                entry_views(records@) == input.subrange(0, i as int),
            decreases space_objects@.len() - i,
        {
            let ghost before = entry_views(records@);
            records.push((space_objects[i].position().duplicate(), space_objects[i].value()));
            assert(entry_views(records@) =~= before.push(input[i as int]));
            i += 1;
            assert(entry_views(records@) =~= input.subrange(0, i as int));
        }
        assert(input.subrange(0, i as int) =~= input);
        proof {
            lemma_covers_self(input);
        }
        let mut built: Vec<SpaceIndex> = Vec::new();
        match scales {
            Some(sc) => {
                let mut firsts: Vec<u32> = Vec::new();
                let mut k: usize = 0;
                while k < sc.len()
                    invariant
                        k <= sc@.len(),
                        forall|m: int| 0 <= m < sc@.len() ==> (#[trigger] sc@[m])@.len() >= 1,
                        firsts@.len() == k,
                        forall|m: int| 0 <= m < k ==> firsts@[m] == (#[trigger] sc@[m])@[0],
                    decreases sc@.len() - k,
                {
                    firsts.push(sc[k][0]);
                    k += 1;
                }
                let shifts = sorted_unique(&firsts);
                assert(firsts@.contains(firsts@[0]));
                assert(shifts@.contains(firsts@[0]));
                assert forall|m: int| 0 <= m < shifts@.len() implies #[trigger] shifts@[m] < 64 by {
                    assert(shifts@.contains(shifts@[m]));
                    assert(firsts@.contains(shifts@[m]));
                    let k = choose|k: int| 0 <= k < firsts@.len() && firsts@[k] == shifts@[m];
                    assert(firsts@[k] == sc@[k]@[0]);
                }
                let mut cur = records;
                let mut prev: u32 = 0;
                let mut j: usize = 0;
                while j < shifts.len()
                    invariant
                        j <= shifts@.len(),
                        forall|a: int, b: int| 0 <= a < b < shifts@.len() ==> shifts@[a] < shifts@[b],
                        forall|m: int| 0 <= m < shifts@.len() ==> #[trigger] shifts@[m] < 64,
                        j > 0 ==> prev == shifts@[j - 1],
                        j == 0 ==> prev == 0,
                        prev < 64,
                        covers(entry_views(cur@), input, prev as u64),
                        built@.len() == j,
                        forall|m: int| 0 <= m < j ==> (#[trigger] built@[m]).spec_shift() == shifts@[m],
                        forall|m: int|
                            0 <= m < j ==> holds_reduced(
                                (#[trigger] built@[m]).entries(),
                                input,
                                built@[m].spec_shift() as u64,
                            ),
                        forall|m: int|
                            0 <= m < j ==> (#[trigger] built@[m]).spec_scale() == Seq::new(
                                dimensions as nat,
                                |_a: int| built@[m].spec_shift(),
                            ),
                        forall|a: int, b: int|
                            0 <= a < b < j ==> #[trigger] built@[a].entries().len()
                                >= #[trigger] built@[b].entries().len(),
                        j > 0 ==> entry_views(cur@) == built@[j - 1].entries(),
                    decreases shifts@.len() - j,
                {
                    let s = shifts[j];
                    assert(s >= prev) by {
                        if j > 0 {
                            assert(shifts@[j - 1] < shifts@[j as int]);
                        }
                    }
                    let next = reduce_dedup(&cur, s - prev);
                    proof {
                        lemma_covers_compose(
                            entry_views(next@),
                            entry_views(cur@),
                            input,
                            prev as u64,
                            (s - prev) as u64,
                        );
                    }
                    let level = SpaceIndex::new(s, uniform_scale(s, dimensions), copy_records(&next));
                    built.push(level);
                    cur = next;
                    prev = s;
                    j += 1;
                }
                assert forall|a: int, b: int|
                    0 <= a < b < built@.len() implies #[trigger] built@[a].spec_shift()
                        < #[trigger] built@[b].spec_shift() by {
                    assert(shifts@[a] < shifts@[b]);
                }
                assert forall|x: u32|
                    #![trigger shift_used(built@, x)]
                    #![trigger scale_requested(sc@, x)]
                    shift_used(built@, x) <==> scale_requested(sc@, x) by {
                    if shift_used(built@, x) {
                        let i = choose|i: int| 0 <= i < built@.len() && #[trigger] built@[i].spec_shift() == x;
                        assert(shifts@[i] == x);
                        assert(shifts@.contains(x));
                        assert(firsts@.contains(x));
                        let k = choose|k: int| 0 <= k < firsts@.len() && firsts@[k] == x;
                        assert(sc@[k]@[0] == x);
                    }
                    if scale_requested(sc@, x) {
                        let k = choose|k: int| 0 <= k < sc@.len() && (#[trigger] sc@[k])@[0] == x;
                        assert(firsts@[k] == x);
                        assert(firsts@.contains(x));
                        assert(shifts@.contains(x));
                        let i = choose|i: int| 0 <= i < shifts@.len() && shifts@[i] == x;
                        assert(built@[i].spec_shift() == x);
                    }
                }
            },
            None => {
                let mut cur = copy_records(&records);
                built.push(SpaceIndex::new(0, uniform_scale(0, dimensions), records));
                if let Some(max) = max_elements {
                    let mut target: usize = cur.len() / 2;
                    let mut count: u32 = 0;
                    let ghost full = seq![0u32] + auto_shifts(
                        input,
                        max as nat,
                        0,
                        input.len(),
                        input.len() / 2,
                    );
                    assert(shifts_of(built@) =~= seq![0u32]);
                    while cur.len() > max && count < 31
                        invariant
                            shifts_of(built@) + auto_shifts(
                                input,
                                max as nat,
                                count as nat,
                                cur@.len() as nat,
                                target as nat,
                            ) == full,
                            count <= 31,
                            built@.len() >= 1,
                            built@[0].spec_shift() == 0,
                            built@[0].entries() == input,
                            covers(entry_views(cur@), input, count as u64),
                            built@.last().spec_shift() <= count,
                            cur@.len() <= built@.last().entries().len(),
                            target == built@.last().entries().len() / 2,
                            forall|m: int| 0 <= m < built@.len() ==> #[trigger] built@[m].spec_shift() <= 31,
                            forall|a: int, b: int|
                                0 <= a < b < built@.len() ==> #[trigger] built@[a].spec_shift()
                                    < #[trigger] built@[b].spec_shift(),
                            forall|m: int|
                                0 < m < built@.len() ==> holds_reduced(
                                    (#[trigger] built@[m]).entries(),
                                    input,
                                    built@[m].spec_shift() as u64,
                                ),
                            forall|m: int|
                                0 <= m < built@.len() ==> (#[trigger] built@[m]).spec_scale() == Seq::new(
                                    dimensions as nat,
                                    |_a: int| built@[m].spec_shift(),
                                ),
                            forall|m: int|
                                0 < m < built@.len() ==> 2 * (#[trigger] built@[m]).entries().len()
                                    <= built@[m - 1].entries().len(),
                        decreases 31 - count,
                    {
                        let next = reduce_dedup(&cur, 1);
                        proof {
                            lemma_covers_compose(
                                entry_views(next@),
                                entry_views(cur@),
                                input,
                                count as u64,
                                1,
                            );
                        }
                        proof {
                            lemma_level_len(entry_views(next@), input, (count + 1) as u64);
                        }
                        let ghost prior = shifts_of(built@);
                        count += 1;
                        cur = next;
                        if cur.len() <= target {
                            let level = SpaceIndex::new(count, uniform_scale(count, dimensions), copy_records(&cur));
                            built.push(level);
                            assert(shifts_of(built@) =~= prior.push(count));
                            assert(prior.push(count) + auto_shifts(
                                input,
                                max as nat,
                                count as nat,
                                cur@.len() as nat,
                                (cur@.len() / 2) as nat,
                            ) =~= prior + (seq![count] + auto_shifts(
                                input,
                                max as nat,
                                count as nat,
                                cur@.len() as nat,
                                (cur@.len() / 2) as nat,
                            )));
                            target = cur.len() / 2;
                        }
                    }
                    assert(shifts_of(built@) + Seq::<u32>::empty() =~= shifts_of(built@));
                    proof {
                        assert forall|a: int, b: int|
                            0 <= a < b < built@.len() implies #[trigger] built@[a].entries().len()
                                >= #[trigger] built@[b].entries().len() by {
                            lemma_lengths_shrink(built@, a, b);
                        }
                    }
                }
            },
        }
        SpaceDB { reference_space: reference_space.to_owned(), resolutions: built }
    }

    /// Name of the reference space.
    pub fn name(&self) -> (r: &String)
        ensures
            r@ == self.spec_name(),
    {
        &self.reference_space
    }

    /// The levels, highest resolution first.
    pub fn resolutions(&self) -> (r: &Vec<SpaceIndex>)
        ensures
            r@ == self.levels(),
    {
        &self.resolutions
    }

    /// Exponent of the threshold of level `i`: its threshold volume is the
    /// space volume divided by two to this power.
    pub fn threshold_shift(&self, i: usize) -> (r: u32)
        requires
            self.well_formed(),
            i < self.levels().len(),
        ensures
            r == self.spec_threshold_shift(i as int),
    {
        let last = self.resolutions.len() - 1;
        if i < last {
            assert(self.levels()[i as int].spec_shift() < self.levels()[last as int].spec_shift());
        }
        self.resolutions[last].shift() - self.resolutions[i].shift()
    }

    /// Index of the highest resolution level.
    fn highest_resolution(&self) -> (r: usize)
        ensures
            r == 0,
    {
        0
    }

    /// Index of the lowest resolution level.
    fn lowest_resolution(&self) -> (r: usize)
        requires
            self.well_formed(),
        ensures
            r == self.levels().len() - 1,
    {
        self.resolutions.len() - 1
    }

    /// The first level whose threshold is at least the query volume, or the
    /// lowest resolution.
    fn resolution_from_volume(&self, k: u32) -> (r: usize)
        requires
            self.well_formed(),
        ensures
            r == self.first_by_volume(0, k),
    {
        let n = self.resolutions.len();
        let mut i: usize = self.highest_resolution();
        while i < n - 1
            invariant
                self.well_formed(),
                n == self.levels().len(),
                i < n,
                self.first_by_volume(0, k) == self.first_by_volume(i as int, k),
            decreases n - i,
        {
            if self.threshold_shift(i) <= k {
                return i;
            }
            i += 1;
        }
        self.lowest_resolution()
    }

    /// The first level whose scale is at least `scale` on every axis, or the
    /// lowest resolution.
    fn resolution_from_scale(&self, scale: &Vec<u32>) -> (r: usize)
        requires
            self.well_formed(),
        ensures
            r == self.first_by_scale(0, scale@),
    {
        let n = self.resolutions.len();
        let mut i: usize = self.highest_resolution();
        while i < n - 1
            invariant
                self.well_formed(),
                n == self.levels().len(),
                i < n,
                self.first_by_scale(0, scale@) == self.first_by_scale(i as int, scale@),
            decreases n - i,
        {
            if scale_fits(scale, self.resolutions[i].scale()) {
                return i;
            }
            i += 1;
        }
        self.lowest_resolution()
    }

    /// The level a query uses: by explicit scale if given, else the first
    /// whose threshold is at least the query volume, else the lowest
    /// resolution.
    pub fn resolution(&self, parameters: &QueryParameters) -> (r: usize)
        requires
            self.well_formed(),
        ensures
            r == self.spec_resolution(*parameters),
            r < self.levels().len(),
    {
        proof {
            lemma_first_in_range(*self, *parameters);
        }
        match &parameters.resolution {
            Some(scale) => self.resolution_from_scale(scale),
            None => match parameters.volume_shift {
                Some(k) => self.resolution_from_volume(k),
                None => self.lowest_resolution(),
            },
        }
    }

    /// Positions of the identifier at offset `id` in the selected level,
    /// keeping only those the view port holds, if one is set.
    pub fn get_by_id(&self, id: usize, parameters: &QueryParameters) -> (r: Vec<Position>)
        requires
            self.well_formed(),
        ensures
            views(r@) == self.spec_get_by_id(id, *parameters),
            parameters.view_port is Some ==> forall|i: int|
                0 <= i < r@.len() ==> parameters.view_port->0.spec_contains(#[trigger] r@[i]@),
    {
        let index = self.resolution(parameters);
        let objects = self.resolutions[index].find_by_value(id);
        match &parameters.view_port {
            None => objects,
            Some(vp) => {
                let ghost all = views(objects@);
                let ghost pred = held_by(*vp);
                let mut out: Vec<Position> = Vec::new();
                let mut i: usize = 0;
                proof {
                    reveal(Seq::filter);
                    assert(all.subrange(0, 0) =~= Seq::<Seq<u64>>::empty());
                    assert(views(out@) =~= all.subrange(0, 0).filter(pred));
                }
                while i < objects.len()
                    invariant
                        i <= all.len(),
                        all == views(objects@),
                        pred == held_by(*vp),
                        views(out@) == all.subrange(0, i as int).filter(pred),
                        forall|m: int| 0 <= m < out@.len() ==> vp.spec_contains(#[trigger] out@[m]@),
                    decreases all.len() - i,
                {
                    proof {
                        reveal(Seq::filter);
                    }
                    let ghost sub = all.subrange(0, i + 1);
                    assert(sub.drop_last() =~= all.subrange(0, i as int));
                    assert(sub.last() == objects@[i as int]@);
                    if vp.contains(&objects[i]) {
                        let ghost before = views(out@);
                        out.push(objects[i].duplicate());
                        assert(views(out@) =~= before.push(sub.last()));
                    }
                    i += 1;
                }
                assert(all.subrange(0, i as int) =~= all);
                out
            },
        }
    }

    /// For each position in order, the records of the selected level whose
    /// key it is.
    pub fn get_by_positions(&self, positions: &Vec<Position>, parameters: &QueryParameters) -> (r:
        Vec<(Position, usize)>)
        requires
            self.well_formed(),
        ensures
            entry_views(r@) == self.spec_get_by_positions(views(positions@), *parameters),
    {
        let index = self.resolution(parameters);
        let level = &self.resolutions[index];
        let mut out: Vec<(Position, usize)> = Vec::new();
        let mut i: usize = 0;
        assert(views(positions@).subrange(0, 0) =~= Seq::<Seq<u64>>::empty());
        while i < positions.len()
            invariant
                i <= positions@.len(),
                entry_views(out@) == lookup_all(
                    level.entries(),
                    views(positions@).subrange(0, i as int),
                ),
            decreases positions@.len() - i,
        {
            let found = level.find_entries(&positions[i]);
            let mut m: usize = 0;
            let ghost start = entry_views(out@);
            while m < found.len()
                invariant
                    m <= found@.len(),
                    entry_views(out@) == start + entry_views(found@).subrange(0, m as int),
                decreases found@.len() - m,
            {
                let ghost before = entry_views(out@);
                out.push((found[m].0.duplicate(), found[m].1));
                assert(entry_views(out@) =~= before.push(entry_views(found@)[m as int]));
                m += 1;
                assert(entry_views(out@) =~= start + entry_views(found@).subrange(0, m as int));
            }
            let ghost sub = views(positions@).subrange(0, i + 1);
            assert(sub.drop_last() =~= views(positions@).subrange(0, i as int));
            assert(sub.last() == positions@[i as int]@);
            assert(entry_views(found@).subrange(0, m as int) =~= entry_views(found@));
            i += 1;
        }
        assert(views(positions@).subrange(0, i as int) =~= views(positions@));
        out
    }

    /// Records of a shape query on the selected level, with the view port.
    pub fn get_by_shape(&self, shape: &Shape, parameters: &QueryParameters) -> (r: Result<
        Vec<(Position, usize)>,
        Error,
    >)
        requires
            self.well_formed(),
        ensures
            match r {
                Ok(v) => self.spec_get_by_shape(*shape, *parameters) == Ok::<Seq<Entry>, Error>(
                    entry_views(v@),
                ),
                Err(e) => self.spec_get_by_shape(*shape, *parameters) == Err::<Seq<Entry>, Error>(e),
            },
    {
        let index = self.resolution(parameters);
        self.resolutions[index].find_by_shape(shape, &parameters.view_port)
    }
}

/// Whether `have` is at least `want` on every axis, dimensions equal.
fn scale_fits(want: &Vec<u32>, have: &Vec<u32>) -> (r: bool)
    ensures
        r == (want@.len() == have@.len() && forall|a: int|
            0 <= a < want@.len() ==> want@[a] <= #[trigger] have@[a]),
{
    if want.len() != have.len() {
        return false;
    }
    let mut a: usize = 0;
    while a < want.len()
        invariant
            a <= want@.len(),
            want@.len() == have@.len(),
            forall|b: int| 0 <= b < a ==> want@[b] <= #[trigger] have@[b],
        decreases want@.len() - a,
    {
        if want[a] > have[a] {
            return false;
        }
        a += 1;
    }
    true
}

/// The level a query selects is one of the levels.
proof fn lemma_first_in_range(db: SpaceDB, parameters: QueryParameters)
    requires
        db.well_formed(),
    ensures
        0 <= db.spec_resolution(parameters) < db.levels().len(),
{
    match parameters.resolution {
        Some(scale) => lemma_first_by_scale_in_range(db, 0, scale@),
        None => match parameters.volume_shift {
            Some(k) => lemma_first_by_volume_in_range(db, 0, k),
            None => {},
        },
    }
}

proof fn lemma_first_by_scale_in_range(db: SpaceDB, from: int, scale: Seq<u32>)
    requires
        db.well_formed(),
        0 <= from,
    ensures
        from <= db.first_by_scale(from, scale) || db.first_by_scale(from, scale) == db.levels().len() - 1,
        0 <= db.first_by_scale(from, scale) < db.levels().len(),
    decreases db.levels().len() - from,
{
    if from < db.levels().len() - 1 && !db.fits_scale(from, scale) {
        lemma_first_by_scale_in_range(db, from + 1, scale);
    }
}

proof fn lemma_first_by_volume_in_range(db: SpaceDB, from: int, k: u32)
    requires
        db.well_formed(),
        0 <= from,
    ensures
        0 <= db.first_by_volume(from, k) < db.levels().len(),
    decreases db.levels().len() - from,
{
    if from < db.levels().len() - 1 && !db.fits_volume(from, k) {
        lemma_first_by_volume_in_range(db, from + 1, k);
    }
}

/// Within the levels of a reference space, thresholds never decrease and
/// the number of records never grows from one level to a later one.
pub proof fn lemma_levels_ordered(db: SpaceDB, i: int, j: int)
    requires
        db.well_formed(),
        0 <= i <= j < db.levels().len(),
    ensures
        db.spec_threshold_shift(i) >= db.spec_threshold_shift(j),
        db.levels()[i].entries().len() >= db.levels()[j].entries().len(),
{
    if i < j {
        assert(db.levels()[i].spec_shift() < db.levels()[j].spec_shift());
        assert(db.levels()[i].entries().len() >= db.levels()[j].entries().len());
    }
}

/// A query by identifier never yields a position outside the view port,
/// when one is set.
pub proof fn lemma_get_by_id_within_view_port(
    db: SpaceDB,
    id: usize,
    parameters: QueryParameters,
    p: Seq<u64>,
)
    requires
        parameters.view_port is Some,
        db.spec_get_by_id(id, parameters).contains(p),
    ensures
        parameters.view_port->0.spec_contains(p),
{
    let vp = parameters.view_port->0;
    let found = db.levels()[db.spec_resolution(parameters)].entries().filter(with_value(id)).map_values(
        |e: Entry| e.0,
    );
    let k = choose|k: int| 0 <= k < found.filter(held_by(vp)).len() && found.filter(held_by(vp))[k] == p;
    found.lemma_filter_pred(held_by(vp), k);
}

/// Lengths that at least halve from one element to the next never grow.
proof fn lemma_lengths_shrink(levels: Seq<SpaceIndex>, a: int, b: int)
    requires
        0 <= a < b < levels.len(),
        forall|m: int|
            0 < m < levels.len() ==> 2 * (#[trigger] levels[m]).entries().len()
                <= levels[m - 1].entries().len(),
    ensures
        levels[a].entries().len() >= levels[b].entries().len(),
    decreases b - a,
{
    assert(2 * levels[b].entries().len() <= levels[b - 1].entries().len());
    if a < b - 1 {
        lemma_lengths_shrink(levels, a, b - 1);
    }
}

} // verus!
