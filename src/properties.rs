//! Identifiers tagged in space, and the sorted table of a dataset.

use std::cmp::Ordering;
use vstd::prelude::*;
use vstd::utf8::{encode_utf8, encode_utf8_decode_utf8};

verus! {

/// Byte-wise lexicographic order, the order of `str`.
pub open spec fn bytes_lt(a: Seq<u8>, b: Seq<u8>) -> bool
    decreases a.len(),
{
    if a.len() == 0 {
        b.len() > 0
    } else if b.len() == 0 {
        false
    } else if a[0] != b[0] {
        a[0] < b[0]
    } else {
        bytes_lt(a.drop_first(), b.drop_first())
    }
}

/// No sequence comes before itself.
pub proof fn lemma_bytes_lt_irreflexive(a: Seq<u8>)
    ensures
        !bytes_lt(a, a),
    decreases a.len(),
{
    if a.len() > 0 {
        lemma_bytes_lt_irreflexive(a.drop_first());
    }
}

/// The order is transitive.
pub proof fn lemma_bytes_lt_transitive(a: Seq<u8>, b: Seq<u8>, c: Seq<u8>)
    requires
        bytes_lt(a, b),
        bytes_lt(b, c),
    ensures
        bytes_lt(a, c),
    decreases a.len(),
{
    if a.len() > 0 && a[0] == b[0] && b[0] == c[0] {
        lemma_bytes_lt_transitive(a.drop_first(), b.drop_first(), c.drop_first());
    }
}

/// Compare two byte strings in lexicographic order.
pub fn compare_bytes(a: &[u8], b: &[u8]) -> (r: Ordering)
    ensures
        (r == Ordering::Less) == bytes_lt(a@, b@),
        (r == Ordering::Equal) == (a@ == b@),
        (r == Ordering::Greater) == bytes_lt(b@, a@),
{
    let mut i: usize = 0;
    assert(a@.subrange(0, a@.len() as int) =~= a@);
    assert(b@.subrange(0, b@.len() as int) =~= b@);
    while i < a.len() && i < b.len() && a[i] == b[i]
        invariant
            i <= a@.len(),
            i <= b@.len(),
            bytes_lt(a@, b@) == bytes_lt(a@.subrange(i as int, a@.len() as int), b@.subrange(i as int, b@.len() as int)),
            bytes_lt(b@, a@) == bytes_lt(b@.subrange(i as int, b@.len() as int), a@.subrange(i as int, a@.len() as int)),
            (a@ == b@) == (a@.subrange(i as int, a@.len() as int) == b@.subrange(i as int, b@.len() as int)),
        decreases a@.len() - i,
    {
        let ghost sa = a@.subrange(i as int, a@.len() as int);
        let ghost sb = b@.subrange(i as int, b@.len() as int);
        assert(sa.drop_first() =~= a@.subrange(i + 1, a@.len() as int));
        assert(sb.drop_first() =~= b@.subrange(i + 1, b@.len() as int));
        assert(sa =~= seq![sa[0]] + sa.drop_first());
        assert(sb =~= seq![sb[0]] + sb.drop_first());
        i += 1;
    }
    let ghost sa = a@.subrange(i as int, a@.len() as int);
    let ghost sb = b@.subrange(i as int, b@.len() as int);
    if i == a.len() && i == b.len() {
        assert(sa =~= sb);
        proof {
            lemma_bytes_lt_irreflexive(sa);
        }
        Ordering::Equal
    } else if i == a.len() {
        assert(sa.len() == 0 && sb.len() > 0);
        Ordering::Less
    } else if i == b.len() {
        assert(sb.len() == 0 && sa.len() > 0);
        Ordering::Greater
    } else if a[i] < b[i] {
        assert(sa[0] != sb[0]);
        Ordering::Less
    } else {
        assert(sa[0] != sb[0]);
        Ordering::Greater
    }
}

/// The identifier of a spatial object, with its kind.
#[derive(Clone, Debug, Hash)]
pub enum Properties {
    /// A spatial feature.
    Feature(String),
    /// An identifier of another kind: id, then kind.
    Unknown(String, String),
}

/// The bytes by which identifiers are ordered.
pub open spec fn id_key(id: Seq<char>) -> Seq<u8> {
    encode_utf8(id)
}

impl Properties {
    /// The identifier.
    pub open spec fn spec_id(&self) -> Seq<char> {
        match self {
            Properties::Feature(id) => id@,
            Properties::Unknown(id, _) => id@,
        }
    }

    /// The kind: `Feature` for a feature, else the kind it was given.
    pub open spec fn spec_kind(&self) -> Seq<char> {
        match self {
            Properties::Feature(_) => "Feature"@,
            Properties::Unknown(_, t) => t@,
        }
    }

    /// The identifier.
    pub fn id(&self) -> (r: &str)
        ensures
            r@ == self.spec_id(),
    {
        match self {
            Properties::Feature(id) => id.as_str(),
            Properties::Unknown(id, _) => id.as_str(),
        }
    }

    /// The kind of object.
    pub fn kind(&self) -> (r: &str)
        ensures
            r@ == self.spec_kind(),
    {
        match self {
            Properties::Feature(_) => "Feature",
            Properties::Unknown(_, kind) => kind.as_str(),
        }
    }

    /// A feature with identifier `id`.
    pub fn feature(id: &str) -> (r: Properties)
        ensures
            r is Feature,
            r.spec_id() == id@,
    {
        Properties::Feature(id.to_owned())
    }

    /// An identifier `id` of kind `kind`.
    pub fn unknown(id: &str, kind: &str) -> (r: Properties)
        ensures
            r is Unknown,
            r.spec_id() == id@,
            r.spec_kind() == kind@,
    {
        Properties::Unknown(id.to_owned(), kind.to_owned())
    }

    /// Same kind and same identifier; for objects of no fixed kind, the
    /// same kind name too.
    pub fn same(&self, other: &Properties) -> (r: bool)
        ensures
            r == (self.spec_id() == other.spec_id() && (self is Feature) == (other is Feature)
                && self.spec_kind() == other.spec_kind()),
    {
        match (self, other) {
            (Properties::Feature(a), Properties::Feature(b)) => *a == *b,
            (Properties::Unknown(a, s), Properties::Unknown(b, t)) => *a == *b && *s == *t,
            _ => false,
        }
    }
}

impl PartialEq for Properties {
    fn eq(&self, other: &Properties) -> (r: bool) {
        self.same(other)
    }
}

impl vstd::std_specs::cmp::PartialEqSpecImpl for Properties {
    open spec fn obeys_eq_spec() -> bool {
        true
    }

    open spec fn eq_spec(&self, other: &Properties) -> bool {
        self.spec_id() == other.spec_id() && (self is Feature) == (other is Feature)
            && self.spec_kind() == other.spec_kind()
    }
}

/// Identifiers strictly increase along the table, so each occurs once.
pub open spec fn sorted_by_id(table: Seq<Properties>) -> bool {
    forall|i: int, j: int|
        0 <= i < j < table.len() ==> bytes_lt(
            id_key(#[trigger] table[i].spec_id()),
            id_key(#[trigger] table[j].spec_id()),
        )
}

/// Equal keys mean equal identifiers.
pub proof fn lemma_id_key_injective(a: Seq<char>, b: Seq<char>)
    requires
        id_key(a) == id_key(b),
    ensures
        a == b,
{
    encode_utf8_decode_utf8(a);
    encode_utf8_decode_utf8(b);
}

/// Where identifier `id` stands in a table sorted by identifier, found by
/// binary search.
pub fn search_id(table: &Vec<Properties>, id: &str) -> (r: Option<usize>)
    requires
        sorted_by_id(table@),
    ensures
        match r {
            Some(i) => i < table@.len() && table@[i as int].spec_id() == id@,
            None => forall|i: int| 0 <= i < table@.len() ==> table@[i].spec_id() != id@,
        },
{
    let key = id.as_bytes();
    let mut lo: usize = 0;
    let mut hi: usize = table.len();
    while lo < hi
        invariant
            lo <= hi <= table@.len(),
            sorted_by_id(table@),
            key@ == id_key(id@),
            forall|i: int| 0 <= i < lo ==> bytes_lt(id_key(#[trigger] table@[i].spec_id()), key@),
            forall|i: int| hi <= i < table@.len() ==> bytes_lt(key@, id_key(#[trigger] table@[i].spec_id())),
        decreases hi - lo,
    {
        let mid = lo + (hi - lo) / 2;
        let k = table[mid].id().as_bytes();
        match compare_bytes(k, key) {
            Ordering::Equal => {
                proof {
                    lemma_id_key_injective(table@[mid as int].spec_id(), id@);
                }
                return Some(mid);
            },
            Ordering::Less => {
                assert forall|i: int| 0 <= i < mid + 1 implies bytes_lt(
                    id_key(#[trigger] table@[i].spec_id()),
                    key@,
                ) by {
                    if i < mid {
                        lemma_bytes_lt_transitive(
                            id_key(table@[i].spec_id()),
                            id_key(table@[mid as int].spec_id()),
                            key@,
                        );
                    }
                }
                lo = mid + 1;
            },
            Ordering::Greater => {
                assert forall|i: int| mid <= i < table@.len() implies bytes_lt(
                    key@,
                    id_key(#[trigger] table@[i].spec_id()),
                ) by {
                    if i > mid {
                        lemma_bytes_lt_transitive(
                            key@,
                            id_key(table@[mid as int].spec_id()),
                            id_key(table@[i].spec_id()),
                        );
                    }
                }
                hi = mid;
            },
        }
    }
    proof {
        assert forall|i: int| 0 <= i < table@.len() implies table@[i].spec_id() != id@ by {
            if table@[i].spec_id() == id@ {
                lemma_bytes_lt_irreflexive(key@);
            }
        }
    }
    None
}

/// The identifiers of a table, in order.
pub open spec fn table_ids(table: Seq<Properties>) -> Seq<Seq<char>> {
    table.map_values(|p: Properties| p.spec_id())
}

/// The views of a list of strings.
pub open spec fn string_views(ids: Seq<String>) -> Seq<Seq<char>> {
    ids.map_values(|s: String| s@)
}

/// The properties table of a list of identifiers, and the offset of each
/// of them in it. The table holds each distinct identifier once, as a
/// feature, sorted by identifier.
pub fn index_properties(ids: &Vec<String>) -> (r: (Vec<Properties>, Vec<usize>))
    ensures
        sorted_by_id(r.0@),
        forall|i: int| 0 <= i < r.0@.len() ==> (#[trigger] r.0@[i]) is Feature,
        forall|x: Seq<char>|
            #![trigger table_ids(r.0@).contains(x)]
            #![trigger string_views(ids@).contains(x)]
            table_ids(r.0@).contains(x) <==> string_views(ids@).contains(x),
        r.1@.len() == ids@.len(),
        forall|k: int|
            0 <= k < ids@.len() ==> (#[trigger] r.1@[k]) < r.0@.len() && r.0@[r.1@[k] as int].spec_id()
                == ids@[k]@,
{
    let mut table: Vec<Properties> = Vec::new();
    let mut k: usize = 0;
    while k < ids.len()
        invariant
            k <= ids@.len(),
            sorted_by_id(table@),
            forall|i: int| 0 <= i < table@.len() ==> (#[trigger] table@[i]) is Feature,
            forall|x: Seq<char>|
                #![trigger table_ids(table@).contains(x)]
                #![trigger string_views(ids@).subrange(0, k as int).contains(x)]
                table_ids(table@).contains(x) <==> string_views(ids@).subrange(0, k as int).contains(x),
        decreases ids@.len() - k,
    {
        let key = ids[k].as_str().as_bytes();
        let ghost x = ids@[k as int]@;
        let mut p: usize = 0;
        let mut found = false;
        let ghost mut greater = false;
        while p < table.len()
            invariant
                p <= table@.len(),
                key@ == id_key(x),
                forall|m: int| 0 <= m < p ==> bytes_lt(id_key(#[trigger] table@[m].spec_id()), key@),
                found ==> p < table@.len() && table@[p as int].spec_id() == x,
                greater ==> p < table@.len() && bytes_lt(key@, id_key(table@[p as int].spec_id())),
            ensures
                p <= table@.len(),
                forall|m: int| 0 <= m < p ==> bytes_lt(id_key(#[trigger] table@[m].spec_id()), key@),
                found ==> p < table@.len() && table@[p as int].spec_id() == x,
                !found ==> p == table@.len() || bytes_lt(key@, id_key(table@[p as int].spec_id())),
            decreases table@.len() - p,
        {
            match compare_bytes(table[p].id().as_bytes(), key) {
                Ordering::Less => {
                    p += 1;
                },
                Ordering::Equal => {
                    proof {
                        lemma_id_key_injective(table@[p as int].spec_id(), x);
                    }
                    found = true;
                    break;
                },
                Ordering::Greater => {
                    proof {
                        greater = true;
                    }
                    break;
                },
            }
        }
        let ghost prev = string_views(ids@).subrange(0, k as int);
        assert(string_views(ids@).subrange(0, k + 1) =~= prev.push(x));
        if found {
            assert(table_ids(table@)[p as int] == x);
            assert forall|y: Seq<char>|
                #![trigger table_ids(table@).contains(y)]
                #![trigger prev.push(x).contains(y)]
                table_ids(table@).contains(y) <==> prev.push(x).contains(y) by {
                if prev.push(x).contains(y) && y != x {
                    let i = choose|i: int| 0 <= i < prev.push(x).len() && prev.push(x)[i] == y;
                    assert(prev[i] == y);
                    assert(prev.contains(y));
                }
                if table_ids(table@).contains(y) {
                    assert(prev.contains(y));
                    let i = choose|i: int| 0 <= i < prev.len() && prev[i] == y;
                    assert(prev.push(x)[i] == y);
                }
            }
        } else {
            let ghost before = table@;
            let ghost before_ids = table_ids(table@);
            table.insert(p, Properties::feature(ids[k].as_str()));
            assert(table_ids(table@) =~= before_ids.insert(p as int, x));
            assert forall|a: int, b: int| 0 <= a < b < table@.len() implies bytes_lt(
                id_key(#[trigger] table@[a].spec_id()),
                id_key(#[trigger] table@[b].spec_id()),
            ) by {
                if b < p {
                    assert(table@[a] == before[a] && table@[b] == before[b]);
                } else if b == p {
                    assert(table@[a] == before[a]);
                } else if a < p {
                    assert(table@[a] == before[a] && table@[b] == before[b - 1]);
                    assert(bytes_lt(key@, id_key(before[p as int].spec_id())));
                    if b - 1 > p {
                        lemma_bytes_lt_transitive(
                            key@,
                            id_key(before[p as int].spec_id()),
                            id_key(before[b - 1].spec_id()),
                        );
                    }
                    lemma_bytes_lt_transitive(
                        id_key(before[a].spec_id()),
                        key@,
                        id_key(before[b - 1].spec_id()),
                    );
                } else if a == p {
                    assert(table@[b] == before[b - 1]);
                    assert(bytes_lt(key@, id_key(before[p as int].spec_id())));
                    if b - 1 > p {
                        lemma_bytes_lt_transitive(
                            key@,
                            id_key(before[p as int].spec_id()),
                            id_key(before[b - 1].spec_id()),
                        );
                    }
                } else {
                    assert(table@[a] == before[a - 1] && table@[b] == before[b - 1]);
                }
            }
            assert forall|i: int| 0 <= i < table@.len() implies (#[trigger] table@[i]) is Feature by {
                if i < p {
                    assert(table@[i] == before[i]);
                } else if i > p {
                    assert(table@[i] == before[i - 1]);
                }
            }
            assert forall|y: Seq<char>|
                #![trigger table_ids(table@).contains(y)]
                #![trigger prev.push(x).contains(y)]
                table_ids(table@).contains(y) <==> prev.push(x).contains(y) by {
                let now = table_ids(table@);
                if now.contains(y) {
                    let i = choose|i: int| 0 <= i < now.len() && now[i] == y;
                    if i < p {
                        assert(before_ids[i] == y);
                        assert(before_ids.contains(y));
                    } else if i > p {
                        assert(before_ids[i - 1] == y);
                        assert(before_ids.contains(y));
                    } else {
                        assert(prev.push(x)[prev.len() as int] == y);
                    }
                    if y != x {
                        let m = choose|m: int| 0 <= m < prev.len() && prev[m] == y;
                        assert(prev.push(x)[m] == y);
                    }
                }
                if prev.push(x).contains(y) {
                    let i = choose|i: int| 0 <= i < prev.push(x).len() && prev.push(x)[i] == y;
                    if i < prev.len() {
                        assert(prev[i] == y);
                        assert(before_ids.contains(y));
                        let m = choose|m: int| 0 <= m < before_ids.len() && before_ids[m] == y;
                        if m < p {
                            assert(now[m] == y);
                        } else {
                            assert(now[m + 1] == y);
                        }
                    } else {
                        assert(now[p as int] == y);
                    }
                }
            }
        }
        k += 1;
    }
    assert(string_views(ids@).subrange(0, k as int) =~= string_views(ids@));
    let mut offsets: Vec<usize> = Vec::new();
    let mut k: usize = 0;
    while k < ids.len()
        invariant
            k <= ids@.len(),
            sorted_by_id(table@),
            forall|x: Seq<char>|
                #![trigger table_ids(table@).contains(x)]
                #![trigger string_views(ids@).contains(x)]
                table_ids(table@).contains(x) <==> string_views(ids@).contains(x),
            offsets@.len() == k,
            forall|m: int|
                0 <= m < k ==> (#[trigger] offsets@[m]) < table@.len() && table@[offsets@[m] as int].spec_id()
                    == ids@[m]@,
        decreases ids@.len() - k,
    {
        match search_id(&table, ids[k].as_str()) {
            Some(i) => {
                offsets.push(i);
            },
            None => {
                proof {
                    assert(string_views(ids@)[k as int] == ids@[k as int]@);
                    assert(string_views(ids@).contains(ids@[k as int]@));
                    let i = choose|i: int|
                        0 <= i < table_ids(table@).len() && table_ids(table@)[i] == ids@[k as int]@;
                    assert(table@[i].spec_id() == ids@[k as int]@);
                }
                offsets.push(0);
            },
        }
        k += 1;
    }
    (table, offsets)
}

} // verus!
