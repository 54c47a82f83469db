//! Lookup of reference spaces and datasets by name.

use vstd::prelude::*;

use crate::error::Error;
use crate::units::str_eq;

verus! {

/// Name of the reference space that all others are anchored in.
pub open spec fn universe_name() -> Seq<char> {
    "Universe"@
}

/// The positions in `names` that hold `name`, in order.
pub open spec fn matches(names: Seq<String>, name: Seq<char>, n: int) -> Seq<int>
    decreases n,
{
    if n <= 0 {
        Seq::empty()
    } else if names[n - 1]@ == name {
        matches(names, name, n - 1).push(n - 1)
    } else {
        matches(names, name, n - 1)
    }
}

/// Looking further never finds fewer matches.
proof fn lemma_matches_grow(names: Seq<String>, name: Seq<char>, a: int, b: int)
    requires
        0 <= a <= b <= names.len(),
    ensures
        matches(names, name, a).len() <= matches(names, name, b).len(),
    decreases b - a,
{
    if a < b {
        lemma_matches_grow(names, name, a, b - 1);
    }
}

/// Whether `name` is the reserved name of the Universe.
pub fn is_universe(name: &str) -> (r: bool)
    ensures
        r == (name@ == universe_name()),
{
    str_eq(name, "Universe")
}

/// The one entry of `names` that is `name`: `NotFound` when none is,
/// `Ambiguous` when several are.
pub fn check_exactly_one(names: &Vec<String>, name: &str) -> (r: Result<usize, Error>)
    ensures
        match r {
            Ok(i) => matches(names@, name@, names@.len() as int) == seq![i as int],
            Err(e) => (e == Error::NotFound && matches(names@, name@, names@.len() as int).len()
                == 0) || (e == Error::Ambiguous && matches(names@, name@, names@.len() as int).len()
                > 1),
        },
{
    let mut found: Option<usize> = None;
    let mut i: usize = 0;
    while i < names.len()
        invariant
            i <= names@.len(),
            match found {
                None => matches(names@, name@, i as int).len() == 0,
                Some(k) => matches(names@, name@, i as int) == seq![k as int],
            },
        decreases names@.len() - i,
    {
        if str_eq(names[i].as_str(), name) {
            match found {
                None => {
                    found = Some(i);
                    assert(matches(names@, name@, i + 1) =~= seq![i as int]);
                },
                Some(_) => {
                    proof {
                        lemma_matches_grow(names@, name@, i + 1, names@.len() as int);
                    }
                    return Err(Error::Ambiguous);
                },
            }
        }
        i += 1;
    }
    match found {
        None => Err(Error::NotFound),
        Some(k) => Ok(k),
    }
}

} // verus!
