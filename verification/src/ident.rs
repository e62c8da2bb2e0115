//! Prefixed identifiers of the data files.
//!
//! Identifiers carry an optional kind prefix in their textual form:
//! `c:britain` names a country, `s:midlands` a state, and
//! `region_state:STATE_X` a region-state; anything else is an unprefixed,
//! unknown-kind identifier.

use vstd::prelude::*;
use vstd::string::*;
use crate::text::str_has_prefix;

verus! {

/// What kind of object an identifier names, as told by its prefix.
#[derive(Debug, Clone, Copy, PartialEq, Eq, Structural, PartialOrd, Ord, Hash, Default)]
pub enum IdentKind {
    Country,
    State,
    RegionState,
    #[default]
    Unknown,
}

/// An identifier split into its kind prefix and bare name.
#[derive(Debug, Clone, PartialEq, Eq, PartialOrd, Ord, Hash, Default)]
pub struct Ident {
    pub value: String,
    pub kind: IdentKind,
}

/// The kind named by the prefix of `s`.
pub open spec fn spec_kind_of(s: Seq<char>) -> IdentKind {
    if s.len() >= 2 && s.subrange(0, 2) == "c:"@ {
        IdentKind::Country
    } else if s.len() >= 2 && s.subrange(0, 2) == "s:"@ {
        IdentKind::State
    } else if s.len() >= 13 && s.subrange(0, 13) == "region_state:"@ {
        IdentKind::RegionState
    } else {
        IdentKind::Unknown
    }
}

/// The bare name of `s`: everything after its kind prefix.
pub open spec fn spec_value_of(s: Seq<char>) -> Seq<char> {
    match spec_kind_of(s) {
        IdentKind::Country => s.skip(2),
        IdentKind::State => s.skip(2),
        IdentKind::RegionState => s.skip(13),
        IdentKind::Unknown => s,
    }
}

/// The prefix under which a kind is written.
pub open spec fn spec_kind_prefix(k: IdentKind) -> Seq<char> {
    match k {
        IdentKind::Country => "c:"@,
        IdentKind::State => "s:"@,
        IdentKind::RegionState => "region_state:"@,
        IdentKind::Unknown => Seq::empty(),
    }
}

/// An identifier whose bare name carries no prefix of its own reads back
/// from its full text with the same kind and name.
pub proof fn lemma_full_name_round_trip(i: Ident)
    requires
        spec_kind_of(i.value@) == IdentKind::Unknown,
    ensures
        spec_kind_of(spec_kind_prefix(i.kind) + i.value@) == i.kind,
        spec_value_of(spec_kind_prefix(i.kind) + i.value@) == i.value@,
{
    reveal_strlit("c:");
    reveal_strlit("s:");
    reveal_strlit("region_state:");
    let t = spec_kind_prefix(i.kind) + i.value@;
    match i.kind {
        IdentKind::Country => {
            assert(t.subrange(0, 2) =~= "c:"@);
            assert(t.skip(2) =~= i.value@);
        },
        IdentKind::State => {
            assert(t.subrange(0, 2) =~= "s:"@);
            if t.len() >= 2 && t.subrange(0, 2) == "c:"@ {
                assert(t.subrange(0, 2)[0] == 's');
                assert(false);
            }
            assert(t.skip(2) =~= i.value@);
        },
        IdentKind::RegionState => {
            assert(t.subrange(0, 13) =~= "region_state:"@);
            if t.len() >= 2 && t.subrange(0, 2) == "c:"@ {
                assert(t.subrange(0, 2)[0] == 'r');
                assert(false);
            }
            if t.len() >= 2 && t.subrange(0, 2) == "s:"@ {
                assert(t.subrange(0, 2)[0] == 'r');
                assert(false);
            }
            assert(t.skip(13) =~= i.value@);
        },
        IdentKind::Unknown => {
            assert(t =~= i.value@);
        },
    }
}

impl Ident {
    /// Splits a borrowed identifier text into kind and bare name.
    pub fn from_str(s: &str) -> (r: Ident)
        ensures
            r.kind == spec_kind_of(s@),
            r.value@ == spec_value_of(s@),
    {
        let n = s.unicode_len();
        if str_has_prefix(s, "c:") {
            proof {
                reveal_strlit("c:");
            }
            Ident { kind: IdentKind::Country, value: s.substring_char(2, n).to_owned() }
        } else if str_has_prefix(s, "s:") {
            proof {
                reveal_strlit("s:");
            }
            Ident { kind: IdentKind::State, value: s.substring_char(2, n).to_owned() }
        } else if str_has_prefix(s, "region_state:") {
            proof {
                reveal_strlit("region_state:");
            }
            Ident { kind: IdentKind::RegionState, value: s.substring_char(13, n).to_owned() }
        } else {
            Ident { kind: IdentKind::Unknown, value: s.to_owned() }
        }
    }

    /// Splits an owned identifier text into kind and bare name.
    pub fn from_string(s: String) -> (r: Ident)
        ensures
            r.kind == spec_kind_of(s@),
            r.value@ == spec_value_of(s@),
    {
        Ident::from_str(s.as_str())
    }

    /// Two identifiers share their bare name, whatever their kinds.
    pub fn eq_name(&self, other: &Ident) -> (r: bool)
        ensures
            r == (self.value@ == other.value@),
    {
        crate::text::str_eq(self.value.as_str(), other.value.as_str())
    }

    /// The identifier's full text: the kind's prefix before the bare name.
    pub fn full_name(&self) -> (r: String)
        ensures
            r@ == spec_kind_prefix(self.kind) + self.value@,
    {
        let mut s = match self.kind {
            IdentKind::Country => String::from_str("c:"),
            IdentKind::State => String::from_str("s:"),
            IdentKind::RegionState => String::from_str("region_state:"),
            IdentKind::Unknown => String::new(),
        };
        s.append(self.value.as_str());
        s
    }
}

} // verus!
