use vstd::prelude::*;

verus! {

/// An ordinal mood scale of five values, ordered from worst to best.
#[derive(Clone, Copy, PartialEq, Eq, Structural, Debug, Hash)]
pub enum Rating {
    Awful,
    Bad,
    Neutral,
    Good,
    Great,
}

impl Rating {
    /// The ordinal number of the rating: 1 for the worst through 5 for the
    /// best.
    pub open spec fn spec_number(self) -> int {
        match self {
            Rating::Awful => 1,
            Rating::Bad => 2,
            Rating::Neutral => 3,
            Rating::Good => 4,
            Rating::Great => 5,
        }
    }

    /// The rating picked for a drawn index: 0 through 4 map to the five
    /// ratings in ascending order, and any larger index gives the best one.
    pub open spec fn spec_from_index(i: u8) -> Rating {
        if i == 0 {
            Rating::Awful
        } else if i == 1 {
            Rating::Bad
        } else if i == 2 {
            Rating::Neutral
        } else if i == 3 {
            Rating::Good
        } else {
            Rating::Great
        }
    }

    pub fn from_index(i: u8) -> (r: Rating)
        ensures
            r == Rating::spec_from_index(i),
    {
        match i {
            0 => Rating::Awful,
            1 => Rating::Bad,
            2 => Rating::Neutral,
            3 => Rating::Good,
            _ => Rating::Great,
        }
    }
}

impl core::convert::From<Rating> for u8 {
    fn from(value: Rating) -> u8 {
        match value {
            Rating::Awful => 1,
            Rating::Bad => 2,
            Rating::Neutral => 3,
            Rating::Good => 4,
            Rating::Great => 5,
        }
    }
}

impl vstd::std_specs::convert::FromSpecImpl<Rating> for u8 {
    open spec fn obeys_from_spec() -> bool {
        true
    }

    open spec fn from_spec(v: Rating) -> u8 {
        v.spec_number() as u8
    }
}

} // verus!
