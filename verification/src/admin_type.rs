//! An older, coarser naming of the zone kinds, read from rule text.

use vstd::prelude::*;
use crate::strings::str_eq;

verus! {

/// The zone kinds under their rule-corpus names.
#[derive(Debug, Clone, Copy, PartialEq, Eq, Structural)]
pub enum AdminType {
    NonAdministrative,
    City,
    Country,
    CountryRegion,
    State,
    StateDistrict,
    CityDistrict,
    Suburb,
}

impl AdminType {
    /// The kind a rule name denotes, if any; the non-administrative kind
    /// has no name in the corpus.
    pub open spec fn spec_from_str(s: Seq<char>) -> Option<AdminType> {
        if s == "country"@ {
            Some(AdminType::Country)
        } else if s == "country_region"@ {
            Some(AdminType::CountryRegion)
        } else if s == "state"@ {
            Some(AdminType::State)
        } else if s == "state_district"@ {
            Some(AdminType::StateDistrict)
        } else if s == "city"@ {
            Some(AdminType::City)
        } else if s == "city_district"@ {
            Some(AdminType::CityDistrict)
        } else if s == "suburb"@ {
            Some(AdminType::Suburb)
        } else {
            None
        }
    }

    /// Read a kind out of its rule name; any other text is an error.
    pub fn from_str(s: &str) -> (r: Result<AdminType, ()>)
        ensures
            match r {
                Ok(t) => Self::spec_from_str(s@) == Some(t),
                Err(_) => Self::spec_from_str(s@) is None,
            },
    {
        if str_eq(s, "country") {
            Ok(AdminType::Country)
        } else if str_eq(s, "country_region") {
            Ok(AdminType::CountryRegion)
        } else if str_eq(s, "state") {
            Ok(AdminType::State)
        } else if str_eq(s, "state_district") {
            Ok(AdminType::StateDistrict)
        } else if str_eq(s, "city") {
            Ok(AdminType::City)
        } else if str_eq(s, "city_district") {
            Ok(AdminType::CityDistrict)
        } else if str_eq(s, "suburb") {
            Ok(AdminType::Suburb)
        } else {
            Err(())
        }
    }
}

} // verus!
