//! Number sets and length units of axes, by name.

use std::cmp::Ordering;
use vstd::prelude::*;

use crate::properties::{compare_bytes, lemma_id_key_injective};

verus! {

/// Whether two strings hold the same characters.
pub fn str_eq(a: &str, b: &str) -> (r: bool)
    ensures
        r == (a@ == b@),
{
    match compare_bytes(a.as_bytes(), b.as_bytes()) {
        Ordering::Equal => {
            proof {
                lemma_id_key_injective(a@, b@);
            }
            true
        },
        _ => false,
    }
}

/// The set of numbers allowed on an axis.
#[derive(Clone, Copy, Debug, PartialEq, Eq, Structural)]
pub enum NumberSet {
    /// Natural numbers, zero included.
    N,
    /// Integers.
    Z,
    /// Rational numbers.
    Q,
    /// Real numbers.
    R,
}

impl NumberSet {
    /// The name of the set: its letter.
    pub open spec fn spec_name(self) -> Seq<char> {
        match self {
            NumberSet::N => "N"@,
            NumberSet::Z => "Z"@,
            NumberSet::Q => "Q"@,
            NumberSet::R => "R"@,
        }
    }

    /// The set named `name`, if any.
    pub fn parse(name: &str) -> (r: Option<NumberSet>)
        ensures
            match r {
                Some(set) => set.spec_name() == name@,
                None => forall|set: NumberSet| set.spec_name() != name@,
            },
    {
        proof {
            reveal_strlit("N");
            reveal_strlit("Z");
            reveal_strlit("Q");
            reveal_strlit("R");
        }
        if str_eq(name, "N") {
            Some(NumberSet::N)
        } else if str_eq(name, "Z") {
            Some(NumberSet::Z)
        } else if str_eq(name, "Q") {
            Some(NumberSet::Q)
        } else if str_eq(name, "R") {
            Some(NumberSet::R)
        } else {
            None
        }
    }

    /// The name of the set, which `parse` reads back.
    pub fn to_str(&self) -> (r: &'static str)
        ensures
            r@ == self.spec_name(),
    {
        match self {
            NumberSet::N => "N",
            NumberSet::Z => "Z",
            NumberSet::Q => "Q",
            NumberSet::R => "R",
        }
    }
}

/// A metric length unit: a prefix of the metre.
#[allow(non_camel_case_types)]
#[derive(Clone, Copy, Debug, PartialEq, Eq, Structural)]
pub enum UnitSI {
    /// Metre.
    m,
    /// Decimetre.
    dm,
    /// Centimetre.
    cm,
    /// Millimetre.
    mm,
    /// Micrometre.
    um,
    /// Nanometre.
    nm,
    /// Picometre.
    pm,
}

impl UnitSI {
    /// The symbol of the unit.
    pub open spec fn spec_symbol(self) -> Seq<char> {
        match self {
            UnitSI::m => "m"@,
            UnitSI::dm => "dm"@,
            UnitSI::cm => "cm"@,
            UnitSI::mm => "mm"@,
            UnitSI::um => "um"@,
            UnitSI::nm => "nm"@,
            UnitSI::pm => "pm"@,
        }
    }

    /// The power of ten of the unit in metres: `10^-exponent`.
    pub open spec fn spec_exponent(self) -> nat {
        match self {
            UnitSI::m => 0,
            UnitSI::dm => 1,
            UnitSI::cm => 2,
            UnitSI::mm => 3,
            UnitSI::um => 6,
            UnitSI::nm => 9,
            UnitSI::pm => 12,
        }
    }

    /// The symbol of the unit.
    pub fn to_str(&self) -> (r: &'static str)
        ensures
            r@ == self.spec_symbol(),
    {
        match self {
            UnitSI::m => "m",
            UnitSI::dm => "dm",
            UnitSI::cm => "cm",
            UnitSI::mm => "mm",
            UnitSI::um => "um",
            UnitSI::nm => "nm",
            UnitSI::pm => "pm",
        }
    }

    /// The unit is one metre divided by ten to this power.
    pub fn exponent(&self) -> (r: u32)
        ensures
            r == self.spec_exponent(),
    {
        match self {
            UnitSI::m => 0,
            UnitSI::dm => 1,
            UnitSI::cm => 2,
            UnitSI::mm => 3,
            UnitSI::um => 6,
            UnitSI::nm => 9,
            UnitSI::pm => 12,
        }
    }

    /// The unit with symbol `name`, if any.
    pub fn parse(name: &str) -> (r: Option<UnitSI>)
        ensures
            match r {
                Some(u) => u.spec_symbol() == name@,
                None => forall|u: UnitSI| u.spec_symbol() != name@,
            },
    {
        proof {
            reveal_strlit("m");
            reveal_strlit("dm");
            reveal_strlit("cm");
            reveal_strlit("mm");
            reveal_strlit("um");
            reveal_strlit("nm");
            reveal_strlit("pm");
        }
        if str_eq(name, "m") {
            Some(UnitSI::m)
        } else if str_eq(name, "dm") {
            Some(UnitSI::dm)
        } else if str_eq(name, "cm") {
            Some(UnitSI::cm)
        } else if str_eq(name, "mm") {
            Some(UnitSI::mm)
        } else if str_eq(name, "um") {
            Some(UnitSI::um)
        } else if str_eq(name, "nm") {
            Some(UnitSI::nm)
        } else if str_eq(name, "pm") {
            Some(UnitSI::pm)
        } else {
            None
        }
    }
}

} // verus!
