//! Country records: tiers and the raw country-type table.

use vstd::prelude::*;
use vstd::string::*;
use crate::text::str_eq;

verus! {

/// The tier of a country, from city-state up to hegemony.
#[derive(Debug, Clone, Copy, PartialEq, Eq, Structural, Hash)]
pub enum CountryTier {
    CityState,
    Principality,
    GrandPrincipality,
    Kingdom,
    Empire,
    Hegemony,
}

impl CountryTier {
    /// The keyword under which the tier is written in the data files.
    pub open spec fn spec_keyword(self) -> Seq<char> {
        match self {
            CountryTier::CityState => "city_state"@,
            CountryTier::Principality => "principality"@,
            CountryTier::GrandPrincipality => "grand_principality"@,
            CountryTier::Kingdom => "kingdom"@,
            CountryTier::Empire => "empire"@,
            CountryTier::Hegemony => "hegemony"@,
        }
    }

    /// The keyword under which the tier is written in the data files.
    pub fn keyword(&self) -> (r: &'static str)
        ensures
            r@ == self.spec_keyword(),
    {
        match self {
            CountryTier::CityState => "city_state",
            CountryTier::Principality => "principality",
            CountryTier::GrandPrincipality => "grand_principality",
            CountryTier::Kingdom => "kingdom",
            CountryTier::Empire => "empire",
            CountryTier::Hegemony => "hegemony",
        }
    }

    /// Reads a tier keyword; any other text is no tier at all.
    pub fn from_keyword(s: &str) -> (r: Option<CountryTier>)
        ensures
            match r {
                Some(t) => s@ == t.spec_keyword(),
                None => forall|t: CountryTier| s@ != #[trigger] t.spec_keyword(),
            },
    {
        if str_eq(s, "city_state") {
            Some(CountryTier::CityState)
        } else if str_eq(s, "principality") {
            Some(CountryTier::Principality)
        } else if str_eq(s, "grand_principality") {
            Some(CountryTier::GrandPrincipality)
        } else if str_eq(s, "kingdom") {
            Some(CountryTier::Kingdom)
        } else if str_eq(s, "empire") {
            Some(CountryTier::Empire)
        } else if str_eq(s, "hegemony") {
            Some(CountryTier::Hegemony)
        } else {
            proof {
                assert forall|t: CountryTier| s@ != #[trigger] t.spec_keyword() by {
                    match t {
                        CountryTier::CityState => assert(s@ != "city_state"@),
                        CountryTier::Principality => assert(s@ != "principality"@),
                        CountryTier::GrandPrincipality => assert(s@ != "grand_principality"@),
                        CountryTier::Kingdom => assert(s@ != "kingdom"@),
                        CountryTier::Empire => assert(s@ != "empire"@),
                        CountryTier::Hegemony => assert(s@ != "hegemony"@),
                    }
                }
            }
            None
        }
    }
}

/// A country type as read from `common/country_types`, before its default
/// rank is resolved against the rank table.
#[derive(Debug, Clone, PartialEq, Eq)]
pub struct RawCountryType {
    pub is_colonizable: bool,
    pub is_unrecognized: bool,
    pub uses_prestige: bool,
    pub has_events: bool,
    pub has_military: bool,
    pub has_economy: bool,
    pub has_politics: bool,
    pub can_research: bool,
    pub default_rank: String,
}

impl RawCountryType {
    /// Whether established countries recognize this country type.
    pub fn is_recognized(&self) -> (r: bool)
        ensures
            r == !self.is_unrecognized,
    {
        !self.is_unrecognized
    }
}

} // verus!
