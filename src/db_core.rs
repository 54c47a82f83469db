//! A dataset: its properties table and one resolution pyramid per reference
//! space it uses, with the queries that run over all of them.

use vstd::prelude::*;

use crate::error::Error;
use crate::position::Position;
use crate::properties::{
    bytes_lt, id_key, lemma_bytes_lt_irreflexive, search_id, sorted_by_id, Properties,
};
use crate::shape::{views, Shape};
use crate::space_db::{
    auto_shifts, holds_reduced, uniform_shift, object_entries, scale_requested, shift_used, shifts_of,
    QueryParameters, SpaceDB,
};
use crate::space_index::{entry_views, Entry, SpaceSetObject};

verus! {

/// The objects expressed in the reference space named `name`.
pub open spec fn in_space(objects: Seq<SpaceSetObject>, name: Seq<char>) -> Seq<SpaceSetObject> {
    objects.filter(|o: SpaceSetObject| o.spec_space_id() == name)
}

/// Every record of every level refers to an offset below `n`.
pub open spec fn values_below(db: SpaceDB, n: nat) -> bool {
    forall|l: int, e: int|
        0 <= l < db.levels().len() && 0 <= e < db.levels()[l].entries().len() ==> (#[trigger] db.levels()[l].entries()[e]).1 < n
}

/// The predicate "the record is not for the identifier at offset `v`".
pub open spec fn not_value(v: usize) -> spec_fn(Entry) -> bool {
    |e: Entry| e.1 != v
}

/// Identifiers of a table sorted by identifier occur once.
pub proof fn lemma_sorted_ids_unique(table: Seq<Properties>, i: int, j: int)
    requires
        sorted_by_id(table),
        0 <= i < table.len(),
        0 <= j < table.len(),
        table[i].spec_id() == table[j].spec_id(),
    ensures
        i == j,
{
    if i < j {
        assert(bytes_lt(id_key(table[i].spec_id()), id_key(table[j].spec_id())));
        lemma_bytes_lt_irreflexive(id_key(table[i].spec_id()));
    } else if j < i {
        assert(bytes_lt(id_key(table[j].spec_id()), id_key(table[i].spec_id())));
        lemma_bytes_lt_irreflexive(id_key(table[i].spec_id()));
    }
}

/// A copy of an object.
fn copy_object(o: &SpaceSetObject) -> (r: SpaceSetObject)
    ensures
        r.spec_space_id() == o.spec_space_id(),
        r.spec_position() == o.spec_position(),
        r.spec_value() == o.spec_value(),
{
    SpaceSetObject::new(o.space_id().as_str(), o.position().duplicate(), o.value())
}

/// A copy of a list of scales.
fn copy_scales(scales: &Option<Vec<Vec<u32>>>) -> (r: Option<Vec<Vec<u32>>>)
    ensures
        r is Some == scales is Some,
        r is Some ==> r->0@.len() == scales->0@.len() && forall|k: int|
            0 <= k < r->0@.len() ==> (#[trigger] r->0@[k])@ == scales->0@[k]@,
{
    match scales {
        None => None,
        Some(sc) => {
            let mut out: Vec<Vec<u32>> = Vec::new();
            let mut k: usize = 0;
            while k < sc.len()
                invariant
                    k <= sc@.len(),
                    out@.len() == k,
                    forall|m: int| 0 <= m < k ==> (#[trigger] out@[m])@ == sc@[m]@,
                decreases sc@.len() - k,
            {
                let mut v: Vec<u32> = Vec::new();
                let mut a: usize = 0;
                while a < sc[k].len()
                    invariant
                        k < sc@.len(),
                        a <= sc@[k as int]@.len(),
                        v@ == sc@[k as int]@.subrange(0, a as int),
                    decreases sc@[k as int]@.len() - a,
                {
                    v.push(sc[k][a]);
                    a += 1;
                    assert(v@ =~= sc@[k as int]@.subrange(0, a as int));
                }
                assert(v@ =~= sc@[k as int]@);
                out.push(v);
                k += 1;
            }
            Some(out)
        },
    }
}

/// One dataset: its identifiers and one resolution pyramid per reference
/// space that it uses.
#[derive(Clone, Debug)]
pub struct Core {
    title: String,
    version: String,
    properties: Vec<Properties>,
    space_db: Vec<SpaceDB>,
}

impl Core {
    /// Title of the dataset.
    pub closed spec fn spec_title(&self) -> Seq<char> {
        self.title@
    }

    /// Revision of the dataset.
    pub closed spec fn spec_version(&self) -> Seq<char> {
        self.version@
    }

    /// The properties table.
    pub closed spec fn spec_properties(&self) -> Seq<Properties> {
        self.properties@
    }

    /// The pyramids, one per reference space, in build order.
    pub closed spec fn spaces(&self) -> Seq<SpaceDB> {
        self.space_db@
    }

    /// The table is sorted by identifier, every pyramid is well formed and
    /// its records refer to entries of the table.
    pub open spec fn well_formed(&self) -> bool {
        &&& sorted_by_id(self.spec_properties())
        &&& forall|s: int| 0 <= s < self.spaces().len() ==> (#[trigger] self.spaces()[s]).well_formed()
        &&& forall|s: int|
            0 <= s < self.spaces().len() ==> values_below(
                #[trigger] self.spaces()[s],
                self.spec_properties().len(),
            )
    }

    /// Index a dataset. `spaces` gives the name and dimension of each
    /// reference space; `space_objects` link positions, encoded in the space
    /// they name, to offsets in `properties`. Objects of a space that is not
    /// listed are left out. With `scales`, every space has as many axes as
    /// each scale. With `max_elements`, no level holds fewer records than
    /// there are identifiers unless the full resolution does.
    pub fn new(
        title: &str,
        version: &str,
        spaces: &Vec<(String, usize)>,
        properties: Vec<Properties>,
        space_objects: Vec<SpaceSetObject>,
        scales: Option<Vec<Vec<u32>>>,
        max_elements: Option<usize>,
    ) -> (r: Core)
        requires
            sorted_by_id(properties@),
            forall|j: int|
                0 <= j < space_objects@.len() ==> (#[trigger] space_objects@[j]).spec_value()
                    < properties@.len(),
            scales is Some ==> scales->0@.len() >= 1 && forall|k: int, d: int|
                0 <= k < scales->0@.len() && 0 <= d < spaces@.len() ==> uniform_shift(
                    #[trigger] scales->0@[k]@,
                    #[trigger] spaces@[d].1,
                ),
        ensures
            r.well_formed(),
            r.spec_title() == title@,
            r.spec_version() == version@,
            r.spec_properties() == properties@,
            r.spaces().len() == spaces@.len(),
            forall|s: int|
                0 <= s < spaces@.len() ==> (#[trigger] r.spaces()[s]).spec_name() == spaces@[s].0@,
            scales is None ==> forall|s: int|
                0 <= s < spaces@.len() ==> (#[trigger] r.spaces()[s]).levels()[0].entries()
                    == object_entries(in_space(space_objects@, spaces@[s].0@)),
            forall|s: int, l: int|
                0 <= s < spaces@.len() && 0 <= l < r.spaces()[s].levels().len() && (scales is Some
                    || l > 0) ==> holds_reduced(
                    (#[trigger] r.spaces()[s].levels()[l]).entries(),
                    object_entries(in_space(space_objects@, spaces@[s].0@)),
                    r.spaces()[s].levels()[l].spec_shift() as u64,
                ),
            scales is Some ==> forall|s: int, x: u32|
                #![trigger shift_used(r.spaces()[s].levels(), x)]
                0 <= s < spaces@.len() ==> (shift_used(r.spaces()[s].levels(), x) <==> scale_requested(
                    scales->0@,
                    x,
                )),
            scales is None && max_elements is Some ==> forall|s: int|
                0 <= s < spaces@.len() ==> shifts_of((#[trigger] r.spaces()[s]).levels()) == seq![0u32]
                    + auto_shifts(
                    object_entries(in_space(space_objects@, spaces@[s].0@)),
                    if max_elements->0 < properties@.len() {
                        properties@.len() as nat
                    } else {
                        max_elements->0 as nat
                    },
                    0,
                    object_entries(in_space(space_objects@, spaces@[s].0@)).len(),
                    object_entries(in_space(space_objects@, spaces@[s].0@)).len() / 2,
                ),
            scales is None && max_elements is None ==> forall|s: int|
                0 <= s < spaces@.len() ==> (#[trigger] r.spaces()[s]).levels().len() == 1,
    {
        let ghost requested = max_elements;
        let n = properties.len();
        let max_elements = match max_elements {
            Some(e) => Some(if e < n { n } else { e }),
            None => None,
        };
        let mut space_dbs: Vec<SpaceDB> = Vec::new();
        let mut s: usize = 0;
        while s < spaces.len()
            invariant
                s <= spaces@.len(),
                n == properties@.len(),
                forall|j: int|
                    0 <= j < space_objects@.len() ==> (#[trigger] space_objects@[j]).spec_value() < n,
                scales is Some ==> scales->0@.len() >= 1 && forall|k: int, d: int|
                    0 <= k < scales->0@.len() && 0 <= d < spaces@.len() ==> uniform_shift(
                        #[trigger] scales->0@[k]@,
                        #[trigger] spaces@[d].1,
                    ),
                space_dbs@.len() == s,
                forall|m: int| 0 <= m < s ==> (#[trigger] space_dbs@[m]).well_formed(),
                forall|m: int| 0 <= m < s ==> values_below(#[trigger] space_dbs@[m], n as nat),
                forall|m: int| 0 <= m < s ==> (#[trigger] space_dbs@[m]).spec_name() == spaces@[m].0@,
                scales is None ==> forall|m: int|
                    0 <= m < s ==> (#[trigger] space_dbs@[m]).levels()[0].entries()
                        == object_entries(in_space(space_objects@, spaces@[m].0@)),
                forall|m: int, l: int|
                    0 <= m < s && 0 <= l < space_dbs@[m].levels().len() && (scales is Some || l > 0)
                        ==> holds_reduced(
                        (#[trigger] space_dbs@[m].levels()[l]).entries(),
                        object_entries(in_space(space_objects@, spaces@[m].0@)),
                        space_dbs@[m].levels()[l].spec_shift() as u64,
                    ),
                scales is Some ==> forall|m: int, x: u32|
                    #![trigger shift_used(space_dbs@[m].levels(), x)]
                    0 <= m < s ==> (shift_used(space_dbs@[m].levels(), x) <==> scale_requested(
                        scales->0@,
                        x,
                    )),
                max_elements is Some == requested is Some,
                requested is Some ==> max_elements->0 == (if requested->0 < n {
                    n
                } else {
                    requested->0
                }),
                scales is None && max_elements is Some ==> forall|m: int|
                    0 <= m < s ==> shifts_of((#[trigger] space_dbs@[m]).levels()) == seq![0u32]
                        + auto_shifts(
                        object_entries(in_space(space_objects@, spaces@[m].0@)),
                        max_elements->0 as nat,
                        0,
                        object_entries(in_space(space_objects@, spaces@[m].0@)).len(),
                        object_entries(in_space(space_objects@, spaces@[m].0@)).len() / 2,
                    ),
                scales is None && max_elements is None ==> forall|m: int|
                    0 <= m < s ==> (#[trigger] space_dbs@[m]).levels().len() == 1,
            decreases spaces@.len() - s,
        {
            let name = &spaces[s].0;
            let ghost pred = |o: SpaceSetObject| o.spec_space_id() == name@;
            let mut filtered: Vec<SpaceSetObject> = Vec::new();
            let mut j: usize = 0;
            proof {
                reveal(Seq::filter);
                assert(space_objects@.subrange(0, 0) =~= Seq::<SpaceSetObject>::empty());
            }
            while j < space_objects.len()
                invariant
                    j <= space_objects@.len(),
                    name == &spaces@[s as int].0,
                    pred == (|o: SpaceSetObject| o.spec_space_id() == name@),
                    object_entries(filtered@) == object_entries(space_objects@.subrange(0, j as int).filter(pred)),
                    forall|m: int| 0 <= m < filtered@.len() ==> (#[trigger] filtered@[m]).spec_value() < n,
                    forall|j: int|
                        0 <= j < space_objects@.len() ==> (#[trigger] space_objects@[j]).spec_value() < n,
                decreases space_objects@.len() - j,
            {
                proof {
                    reveal(Seq::filter);
                }
                let ghost sub = space_objects@.subrange(0, j + 1);
                assert(sub.drop_last() =~= space_objects@.subrange(0, j as int));
                if *space_objects[j].space_id() == *name {
                    let ghost before = filtered@;
                    filtered.push(copy_object(&space_objects[j]));
                    assert(object_entries(filtered@) =~= object_entries(before).push(
                        object_entries(sub.filter(pred)).last(),
                    ));
                    assert(object_entries(filtered@) =~= object_entries(sub.filter(pred)));
                }
                j += 1;
            }
            assert(space_objects@.subrange(0, j as int) =~= space_objects@);
            let copied = copy_scales(&scales);
            let ghost copied_view = copied;
            proof {
                if scales is Some {
                    assert(uniform_shift(scales->0@[0]@, spaces@[s as int].1));
                    assert forall|k: int|
                        0 <= k < copied_view->0@.len() implies uniform_shift(
                        #[trigger] copied_view->0@[k]@,
                        spaces@[s as int].1,
                    ) by {
                        assert(uniform_shift(scales->0@[k]@, spaces@[s as int].1));
                    }
                }
            }
            let db = SpaceDB::new(name.as_str(), spaces[s].1, filtered, copied, max_elements);
            proof {
                if scales is Some {
                    assert forall|x: u32|
                        scale_requested(copied_view->0@, x) <==> scale_requested(scales->0@, x) by {
                        if scale_requested(copied_view->0@, x) {
                            let k = choose|k: int|
                                0 <= k < copied_view->0@.len() && (#[trigger] copied_view->0@[k])@[0] == x;
                            assert(scales->0@[k]@[0] == x);
                        }
                        if scale_requested(scales->0@, x) {
                            let k = choose|k: int|
                                0 <= k < scales->0@.len() && (#[trigger] scales->0@[k])@[0] == x;
                            assert(copied_view->0@[k]@[0] == x);
                        }
                    }
                }
                assert forall|l: int, e: int|
                    0 <= l < db.levels().len() && 0 <= e < db.levels()[l].entries().len() implies (
                    #[trigger] db.levels()[l].entries()[e]).1 < n by {
                    let lv = db.levels()[l].entries();
                    let input = object_entries(filtered@);
                    if scales is None && l == 0 {
                        assert(lv[e] == input[e]);
                        assert(filtered@[e].spec_value() < n);
                    } else {
                        assert(crate::space_db::comes_from(lv[e], input, db.levels()[l].spec_shift() as u64));
                        let k = choose|k: int|
                            0 <= k < input.len() && lv[e] == crate::space_db::reduced(
                                input[k],
                                db.levels()[l].spec_shift() as u64,
                            );
                        assert(filtered@[k].spec_value() < n);
                    }
                }
                assert(object_entries(filtered@) == object_entries(in_space(space_objects@, spaces@[s as int].0@)));
            }
            space_dbs.push(db);
            s += 1;
        }
        Core {
            title: title.to_owned(),
            version: version.to_owned(),
            properties,
            space_db: space_dbs,
        }
    }

    /// Title of the dataset.
    pub fn name(&self) -> (r: &String)
        ensures
            r@ == self.spec_title(),
    {
        &self.title
    }

    /// Revision of the dataset.
    pub fn version(&self) -> (r: &String)
        ensures
            r@ == self.spec_version(),
    {
        &self.version
    }

    /// The identifiers of the dataset, sorted by identifier.
    pub fn keys(&self) -> (r: &Vec<Properties>)
        ensures
            r@ == self.spec_properties(),
    {
        &self.properties
    }

    /// The pyramids, one per reference space.
    pub fn space_dbs(&self) -> (r: &Vec<SpaceDB>)
        ensures
            r@ == self.spaces(),
    {
        &self.space_db
    }

    /// Offset of identifier `id` in the properties table, if present.
    pub fn offset_of(&self, id: &str) -> (r: Option<usize>)
        requires
            self.well_formed(),
        ensures
            match r {
                Some(i) => i < self.spec_properties().len() && self.spec_properties()[i as int].spec_id() == id@,
                None => forall|i: int|
                    0 <= i < self.spec_properties().len() ==> self.spec_properties()[i].spec_id() != id@,
            },
    {
        search_id(&self.properties, id)
    }

    /// Positions of identifier `id` in each reference space, at the level
    /// that `parameters[s]` selects in space `s`, kept where its view port
    /// holds them. Empty when the identifier is unknown.
    pub fn get_by_id(&self, parameters: &Vec<QueryParameters>, id: &str) -> (r: Vec<(String, Vec<Position>)>)
        requires
            self.well_formed(),
            parameters@.len() == self.spaces().len(),
        ensures
            (forall|o: int|
                0 <= o < self.spec_properties().len() ==> self.spec_properties()[o].spec_id() != id@)
                ==> r@.len() == 0,
            forall|o: int|
                0 <= o < self.spec_properties().len() && self.spec_properties()[o].spec_id() == id@
                    ==> {
                    &&& r@.len() == self.spaces().len()
                    &&& forall|s: int|
                        0 <= s < r@.len() ==> (#[trigger] r@[s]).0@ == self.spaces()[s].spec_name()
                            && views(r@[s].1@) == self.spaces()[s].spec_get_by_id(
                            o as usize,
                            parameters@[s],
                        )
                },
    {
        let mut results: Vec<(String, Vec<Position>)> = Vec::new();
        match self.offset_of(id) {
            None => results,
            Some(offset) => {
                let mut s: usize = 0;
                while s < self.space_db.len()
                    invariant
                        self.well_formed(),
                        parameters@.len() == self.spaces().len(),
                        s <= self.spaces().len(),
                        results@.len() == s,
                        forall|m: int|
                            0 <= m < s ==> (#[trigger] results@[m]).0@ == self.spaces()[m].spec_name()
                                && views(results@[m].1@) == self.spaces()[m].spec_get_by_id(
                                offset,
                                parameters@[m],
                            ),
                    decreases self.spaces().len() - s,
                {
                    let db = &self.space_db[s];
                    let positions = db.get_by_id(offset, &parameters[s]);
                    results.push((db.name().clone(), positions));
                    s += 1;
                }
                proof {
                    assert forall|o: int|
                        0 <= o < self.spec_properties().len() && self.spec_properties()[o].spec_id()
                            == id@ implies o == offset by {
                        lemma_sorted_ids_unique(self.spec_properties(), o, offset as int);
                    }
                }
                results
            },
        }
    }

    /// For each reference space `s`, the records at the positions
    /// `positions[s]`, encoded in that space, at the level that
    /// `parameters[s]` selects.
    pub fn get_by_positions(
        &self,
        parameters: &Vec<QueryParameters>,
        positions: &Vec<Vec<Position>>,
    ) -> (r: Vec<(String, Vec<(Position, usize)>)>)
        requires
            self.well_formed(),
            parameters@.len() == self.spaces().len(),
            positions@.len() == self.spaces().len(),
        ensures
            r@.len() == self.spaces().len(),
            forall|s: int|
                0 <= s < r@.len() ==> (#[trigger] r@[s]).0@ == self.spaces()[s].spec_name()
                    && entry_views(r@[s].1@) == self.spaces()[s].spec_get_by_positions(
                    views(positions@[s]@),
                    parameters@[s],
                ),
    {
        let mut results: Vec<(String, Vec<(Position, usize)>)> = Vec::new();
        let mut s: usize = 0;
        while s < self.space_db.len()
            invariant
                self.well_formed(),
                parameters@.len() == self.spaces().len(),
                positions@.len() == self.spaces().len(),
                s <= self.spaces().len(),
                results@.len() == s,
                forall|m: int|
                    0 <= m < s ==> (#[trigger] results@[m]).0@ == self.spaces()[m].spec_name()
                        && entry_views(results@[m].1@) == self.spaces()[m].spec_get_by_positions(
                        views(positions@[m]@),
                        parameters@[m],
                    ),
            decreases self.spaces().len() - s,
        {
            let db = &self.space_db[s];
            let found = db.get_by_positions(&positions[s], &parameters[s]);
            results.push((db.name().clone(), found));
            s += 1;
        }
        results
    }

    /// For each reference space `s`, the records of a query with shape
    /// `shapes[s]`, encoded in that space, at the level that `parameters[s]`
    /// selects. The first space whose query fails fails the whole.
    pub fn get_by_shape(&self, parameters: &Vec<QueryParameters>, shapes: &Vec<Shape>) -> (r: Result<
        Vec<(String, Vec<(Position, usize)>)>,
        Error,
    >)
        requires
            self.well_formed(),
            parameters@.len() == self.spaces().len(),
            shapes@.len() == self.spaces().len(),
        ensures
            match r {
                Ok(v) => v@.len() == self.spaces().len() && forall|s: int|
                    0 <= s < v@.len() ==> (#[trigger] v@[s]).0@ == self.spaces()[s].spec_name()
                        && self.spaces()[s].spec_get_by_shape(shapes@[s], parameters@[s]) == Ok::<
                        Seq<Entry>,
                        Error,
                    >(entry_views(v@[s].1@)),
                Err(e) => exists|s: int|
                    0 <= s < self.spaces().len() && (#[trigger] self.spaces()[s]).spec_get_by_shape(
                        shapes@[s],
                        parameters@[s],
                    ) == Err::<Seq<Entry>, Error>(e) && forall|m: int|
                        0 <= m < s ==> (#[trigger] self.spaces()[m]).spec_get_by_shape(
                            shapes@[m],
                            parameters@[m],
                        ) is Ok,
            },
    {
        let mut results: Vec<(String, Vec<(Position, usize)>)> = Vec::new();
        let mut s: usize = 0;
        while s < self.space_db.len()
            invariant
                self.well_formed(),
                parameters@.len() == self.spaces().len(),
                shapes@.len() == self.spaces().len(),
                s <= self.spaces().len(),
                results@.len() == s,
                forall|m: int|
                    0 <= m < s ==> (#[trigger] results@[m]).0@ == self.spaces()[m].spec_name()
                        && self.spaces()[m].spec_get_by_shape(shapes@[m], parameters@[m]) == Ok::<
                        Seq<Entry>,
                        Error,
                    >(entry_views(results@[m].1@)),
            decreases self.spaces().len() - s,
        {
            let db = &self.space_db[s];
            match db.get_by_shape(&shapes[s], &parameters[s]) {
                Ok(found) => {
                    results.push((db.name().clone(), found));
                },
                Err(e) => {
                    assert forall|m: int| 0 <= m < s implies (#[trigger] self.spaces()[m]).spec_get_by_shape(
                        shapes@[m],
                        parameters@[m],
                    ) is Ok by {
                        assert(results@[m].0@ == self.spaces()[m].spec_name());
                    }
                    return Err(e);
                },
            }
            s += 1;
        }
        Ok(results)
    }

    /// The identifiers co-located with label `id`: for each reference space
    /// `s`, the records at the positions `volume[s]` (the label's own
    /// positions, brought into that space) at the level that
    /// `parameters[s]` selects, leaving out the label's own records. Empty
    /// when the label is unknown.
    pub fn get_by_label(
        &self,
        parameters: &Vec<QueryParameters>,
        id: &str,
        volume: &Vec<Vec<Position>>,
    ) -> (r: Vec<(String, Vec<(Position, usize)>)>)
        requires
            self.well_formed(),
            parameters@.len() == self.spaces().len(),
            volume@.len() == self.spaces().len(),
        ensures
            (forall|o: int|
                0 <= o < self.spec_properties().len() ==> self.spec_properties()[o].spec_id() != id@)
                ==> r@.len() == 0,
            forall|o: int|
                0 <= o < self.spec_properties().len() && self.spec_properties()[o].spec_id() == id@
                    ==> {
                    &&& r@.len() == self.spaces().len()
                    &&& forall|s: int|
                        0 <= s < r@.len() ==> (#[trigger] r@[s]).0@ == self.spaces()[s].spec_name()
                            && entry_views(r@[s].1@) == self.spaces()[s].spec_get_by_positions(
                            views(volume@[s]@),
                            parameters@[s],
                        ).filter(not_value(o as usize))
                    &&& forall|s: int, i: int|
                        0 <= s < r@.len() && 0 <= i < r@[s].1@.len() ==> (#[trigger] r@[s].1@[i]).1
                            != o
                },
    {
        let mut results: Vec<(String, Vec<(Position, usize)>)> = Vec::new();
        match self.offset_of(id) {
            None => results,
            Some(offset) => {
                let ghost pred = not_value(offset);
                let mut s: usize = 0;
                while s < self.space_db.len()
                    invariant
                        self.well_formed(),
                        parameters@.len() == self.spaces().len(),
                        volume@.len() == self.spaces().len(),
                        s <= self.spaces().len(),
                        pred == not_value(offset),
                        results@.len() == s,
                        forall|m: int|
                            0 <= m < s ==> (#[trigger] results@[m]).0@ == self.spaces()[m].spec_name()
                                && entry_views(results@[m].1@) == self.spaces()[m].spec_get_by_positions(
                                views(volume@[m]@),
                                parameters@[m],
                            ).filter(pred),
                        forall|m: int, i: int|
                            0 <= m < s && 0 <= i < results@[m].1@.len() ==> (#[trigger] results@[m].1@[i]).1
                                != offset,
                    decreases self.spaces().len() - s,
                {
                    let db = &self.space_db[s];
                    let found = db.get_by_positions(&volume[s], &parameters[s]);
                    let ghost all = entry_views(found@);
                    let mut kept: Vec<(Position, usize)> = Vec::new();
                    let mut i: usize = 0;
                    proof {
                        reveal(Seq::filter);
                        assert(all.subrange(0, 0) =~= Seq::<Entry>::empty());
                    }
                    while i < found.len()
                        invariant
                            i <= all.len(),
                            all == entry_views(found@),
                            pred == not_value(offset),
                            entry_views(kept@) == all.subrange(0, i as int).filter(pred),
                            forall|m: int| 0 <= m < kept@.len() ==> (#[trigger] kept@[m]).1 != offset,
                        decreases all.len() - i,
                    {
                        proof {
                            reveal(Seq::filter);
                        }
                        let ghost sub = all.subrange(0, i + 1);
                        assert(sub.drop_last() =~= all.subrange(0, i as int));
                        assert(sub.last() == (found@[i as int].0@, found@[i as int].1));
                        if found[i].1 != offset {
                            let ghost before = entry_views(kept@);
                            kept.push((found[i].0.duplicate(), found[i].1));
                            assert(entry_views(kept@) =~= before.push(sub.last()));
                        }
                        i += 1;
                    }
                    assert(all.subrange(0, i as int) =~= all);
                    results.push((db.name().clone(), kept));
                    s += 1;
                }
                proof {
                    assert forall|o: int|
                        0 <= o < self.spec_properties().len() && self.spec_properties()[o].spec_id()
                            == id@ implies o == offset by {
                        lemma_sorted_ids_unique(self.spec_properties(), o, offset as int);
                    }
                }
                results
            },
        }
    }
}

/// An element of `s.push(v)` is `v` or an element of `s`.
proof fn lemma_push_contains<A>(s: Seq<A>, v: A, x: A)
    ensures
        s.push(v).contains(x) <==> (s.contains(x) || x == v),
{
    if s.push(v).contains(x) && x != v {
        let m = choose|m: int| 0 <= m < s.push(v).len() && s.push(v)[m] == x;
        assert(s[m] == x);
    }
    if s.contains(x) {
        let m = choose|m: int| 0 <= m < s.len() && s[m] == x;
        assert(s.push(v)[m] == x);
    }
    if x == v {
        assert(s.push(v)[s.len() as int] == x);
    }
}

/// The indices below `n` at which `values` holds `key`, in increasing order.
pub open spec fn indices_of(values: Seq<usize>, key: usize, n: int) -> Seq<usize>
    decreases n,
{
    if n <= 0 {
        Seq::empty()
    } else if values[n - 1] == key {
        indices_of(values, key, n - 1).push((n - 1) as usize)
    } else {
        indices_of(values, key, n - 1)
    }
}

/// The records of a result grouped by identifier: for each distinct offset
/// of `values`, in order of first occurrence, that offset and the indices
/// at which it occurs, in increasing order.
pub fn group_by_identifier(values: &Vec<usize>) -> (r: Vec<(usize, Vec<usize>)>)
    ensures
        r@.map_values(|g: (usize, Vec<usize>)| g.0).no_duplicates(),
        forall|x: usize|
            #![trigger values@.contains(x)]
            values@.contains(x) <==> exists|g: int| 0 <= g < r@.len() && #[trigger] r@[g].0 == x,
        forall|g: int|
            0 <= g < r@.len() ==> (#[trigger] r@[g]).1@ == indices_of(values@, r@[g].0, values@.len() as int),
{
    let mut keys: Vec<usize> = Vec::new();
    let mut i: usize = 0;
    while i < values.len()
        invariant
            i <= values@.len(),
            keys@.no_duplicates(),
            forall|x: usize| keys@.contains(x) <==> values@.subrange(0, i as int).contains(x),
        decreases values@.len() - i,
    {
        let v = values[i];
        let mut k: usize = 0;
        let mut seen = false;
        while k < keys.len()
            invariant
                k <= keys@.len(),
                seen == (exists|m: int| 0 <= m < k && keys@[m] == v),
            decreases keys@.len() - k,
        {
            if keys[k] == v {
                seen = true;
            }
            k += 1;
        }
        let ghost prev = values@.subrange(0, i as int);
        let ghost old_keys = keys@;
        assert(values@.subrange(0, i + 1) =~= prev.push(v));
        assert(seen == old_keys.contains(v));
        if !seen {
            keys.push(v);
            assert forall|a: int, b: int| 0 <= a < b < keys@.len() implies keys@[a] != keys@[b] by {
                if b == old_keys.len() {
                    assert(keys@[a] == old_keys[a]);
                }
            }
        }
        assert forall|x: usize| keys@.contains(x) <==> prev.push(v).contains(x) by {
            lemma_push_contains(prev, v, x);
            assert(old_keys.contains(x) <==> prev.contains(x));
            if !seen {
                lemma_push_contains(old_keys, v, x);
            }
        }
        i += 1;
    }
    assert(values@.subrange(0, i as int) =~= values@);
    let mut groups: Vec<(usize, Vec<usize>)> = Vec::new();
    let mut g: usize = 0;
    while g < keys.len()
        invariant
            g <= keys@.len(),
            groups@.len() == g,
            forall|m: int| 0 <= m < g ==> (#[trigger] groups@[m]).0 == keys@[m],
            forall|m: int|
                0 <= m < g ==> (#[trigger] groups@[m]).1@ == indices_of(values@, groups@[m].0, values@.len() as int),
        decreases keys@.len() - g,
    {
        let key = keys[g];
        let mut members: Vec<usize> = Vec::new();
        let mut j: usize = 0;
        while j < values.len()
            invariant
                j <= values@.len(),
                members@ == indices_of(values@, key, j as int),
            decreases values@.len() - j,
        {
            if values[j] == key {
                members.push(j);
            }
            j += 1;
        }
        groups.push((key, members));
        g += 1;
    }
    assert(groups@.map_values(|gr: (usize, Vec<usize>)| gr.0) =~= keys@);
    assert forall|x: usize|
        #![trigger values@.contains(x)]
        values@.contains(x) <==> exists|m: int| 0 <= m < groups@.len() && #[trigger] groups@[m].0 == x by {
        if values@.contains(x) {
            assert(keys@.contains(x));
            let m = choose|m: int| 0 <= m < keys@.len() && keys@[m] == x;
            assert(groups@[m].0 == x);
        }
        if exists|m: int| 0 <= m < groups@.len() && #[trigger] groups@[m].0 == x {
            let m = choose|m: int| 0 <= m < groups@.len() && #[trigger] groups@[m].0 == x;
            assert(keys@[m] == x);
            assert(keys@.contains(x));
        }
    }
    groups
}

} // verus!
