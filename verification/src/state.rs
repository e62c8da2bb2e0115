//! States, their regions, and the pops that live in them.
//!
//! A state definition lists which countries hold a piece of the state; the
//! pops tables list, per region, the pops created there. [`GameState`] pairs
//! the two tables, keyed by state identifier, and the lookup functions find
//! the first entry under a bare name.

use vstd::prelude::*;
use vstd::string::*;
use crate::ident::Ident;
use crate::text::str_eq;

verus! {

/// One country's holding within a state.
#[derive(Debug, Clone, PartialEq, Eq)]
pub struct StateCreation {
    pub country: Ident,
    pub owned_provinces: Vec<String>,
    pub state_type: Vec<Ident>,
}

/// A state as defined in the history files: its holdings and homelands.
#[derive(Debug, Clone, PartialEq, Eq)]
pub struct StateDefinition {
    pub states: Vec<StateCreation>,
    pub homelands: Vec<Ident>,
}

/// One pop created in a region.
#[derive(Debug, Clone, PartialEq, Eq)]
pub struct CreatePop {
    pub culture: Ident,
    pub religion: Option<Ident>,
    pub size: u64,
}

/// The pops of one state, listed per region. Few regions exist per state,
/// so a plain list beats a map here.
#[derive(Debug, Clone, PartialEq, Eq)]
pub struct RegionPops {
    pub regions: Vec<(Ident, Vec<CreatePop>)>,
}

/// Index of the first key equal to `name`, if any.
pub open spec fn find_name(keys: Seq<Seq<char>>, name: Seq<char>) -> Option<int>
    decreases keys.len(),
{
    if keys.len() == 0 {
        None
    } else if keys[0] == name {
        Some(0)
    } else {
        match find_name(keys.skip(1), name) {
            Some(i) => Some(i + 1),
            None => None,
        }
    }
}

/// A scan that found no key before `i`, and a key at `i` if `i` is in
/// range, has found the first match — or shown there is none.
pub proof fn lemma_find_name(keys: Seq<Seq<char>>, name: Seq<char>, i: int)
    requires
        0 <= i <= keys.len(),
        forall|k: int| 0 <= k < i ==> keys[k] != name,
        i < keys.len() ==> keys[i] == name,
    ensures
        find_name(keys, name) == if i < keys.len() {
            Some(i)
        } else {
            None::<int>
        },
    decreases keys.len(),
{
    if keys.len() == 0 {
    } else if keys[0] == name {
        assert(i == 0);
    } else {
        assert(i >= 1);
        let t = keys.skip(1);
        assert(forall|k: int| 0 <= k < i - 1 ==> #[trigger] t[k] == keys[k + 1]);
        if i - 1 < t.len() {
            assert(t[i - 1] == keys[i]);
        }
        lemma_find_name(t, name, i - 1);
    }
}

impl RegionPops {
    /// The bare region names, in table order.
    pub open spec fn spec_keys(self) -> Seq<Seq<char>> {
        self.regions@.map_values(|e: (Ident, Vec<CreatePop>)| e.0.value@)
    }

    /// The pops of the first region of that bare name.
    pub fn get<'a>(&'a self, region: &str) -> (r: Option<&'a Vec<CreatePop>>)
        ensures
            match r {
                Some(p) => find_name(self.spec_keys(), region@) matches Some(i) && p@
                    == self.regions@[i].1@,
                None => find_name(self.spec_keys(), region@) is None,
            },
    {
        let n = self.regions.len();
        let mut i: usize = 0;
        while i < n
            invariant
                0 <= i <= n,
                n == self.regions@.len(),
                forall|k: int| 0 <= k < i ==> self.spec_keys()[k] != region@,
            decreases n - i,
        {
            if str_eq(self.regions[i].0.value.as_str(), region) {
                proof {
                    lemma_find_name(self.spec_keys(), region@, i as int);
                }
                return Some(&self.regions[i].1);
            }
            i += 1;
        }
        proof {
            lemma_find_name(self.spec_keys(), region@, n as int);
        }
        None
    }
}

impl StateDefinition {
    /// The bare names of the holding countries, in table order.
    pub open spec fn spec_creation_keys(self) -> Seq<Seq<char>> {
        self.states@.map_values(|c: StateCreation| c.country.value@)
    }
}

/// One region of a state: the holding that claims it and its pops.
#[derive(Debug)]
pub struct StateRegion<'a> {
    pub def: &'a StateCreation,
    pub pops: &'a Vec<CreatePop>,
}

/// One state seen whole: its definition and its pops table.
#[derive(Debug)]
pub struct State<'a> {
    pub def: &'a StateDefinition,
    pub pops: &'a RegionPops,
}

impl<'a> State<'a> {
    /// The region of that bare name: its holding and its pops, when both
    /// tables know the name.
    pub fn get(&self, region: &str) -> (r: Option<StateRegion<'a>>)
        ensures
            match r {
                Some(sr) => find_name(self.def.spec_creation_keys(), region@) matches Some(i)
                    && *sr.def == self.def.states@[i] && (find_name(self.pops.spec_keys(), region@)
                    matches Some(j) && sr.pops@ == self.pops.regions@[j].1@),
                None => find_name(self.def.spec_creation_keys(), region@) is None || find_name(
                    self.pops.spec_keys(),
                    region@,
                ) is None,
            },
    {
        let n = self.def.states.len();
        let mut i: usize = 0;
        while i < n
            invariant
                0 <= i <= n,
                n == self.def.states@.len(),
                forall|k: int| 0 <= k < i ==> self.def.spec_creation_keys()[k] != region@,
            decreases n - i,
        {
            if str_eq(self.def.states[i].country.value.as_str(), region) {
                proof {
                    lemma_find_name(self.def.spec_creation_keys(), region@, i as int);
                }
                let pops = match self.pops.get(region) {
                    Some(p) => p,
                    None => {
                        return None;
                    },
                };
                return Some(StateRegion { def: &self.def.states[i], pops });
            }
            i += 1;
        }
        proof {
            lemma_find_name(self.def.spec_creation_keys(), region@, n as int);
        }
        None
    }
}

/// All states of a game install: definitions and pops, keyed by state
/// identifier.
#[derive(Debug, Clone, PartialEq, Eq)]
pub struct GameState {
    pub defs: Vec<(Ident, StateDefinition)>,
    pub pops: Vec<(Ident, RegionPops)>,
}

impl GameState {
    /// The bare state names of the definition table, in order.
    pub open spec fn spec_def_keys(self) -> Seq<Seq<char>> {
        self.defs@.map_values(|e: (Ident, StateDefinition)| e.0.value@)
    }

    /// The bare state names of the pops table, in order.
    pub open spec fn spec_pops_keys(self) -> Seq<Seq<char>> {
        self.pops@.map_values(|e: (Ident, RegionPops)| e.0.value@)
    }

    /// The state of that bare name, when both tables know it: its first
    /// definition and its first pops entry.
    pub fn get<'a>(&'a self, state: &str) -> (r: Option<State<'a>>)
        ensures
            match r {
                Some(st) => find_name(self.spec_def_keys(), state@) matches Some(i) && *st.def
                    == self.defs@[i].1 && (find_name(self.spec_pops_keys(), state@) matches Some(j)
                    && *st.pops == self.pops@[j].1),
                None => find_name(self.spec_def_keys(), state@) is None || find_name(
                    self.spec_pops_keys(),
                    state@,
                ) is None,
            },
    {
        let nd = self.defs.len();
        let mut i: usize = 0;
        while i < nd
            invariant
                0 <= i <= nd,
                nd == self.defs@.len(),
                forall|k: int| 0 <= k < i ==> self.spec_def_keys()[k] != state@,
            decreases nd - i,
        {
            if str_eq(self.defs[i].0.value.as_str(), state) {
                proof {
                    lemma_find_name(self.spec_def_keys(), state@, i as int);
                }
                let np = self.pops.len();
                let mut j: usize = 0;
                while j < np
                    invariant
                        0 <= j <= np,
                        np == self.pops@.len(),
                        0 <= i < self.defs@.len(),
                        find_name(self.spec_def_keys(), state@) == Some(i as int),
                        forall|k: int| 0 <= k < j ==> self.spec_pops_keys()[k] != state@,
                    decreases np - j,
                {
                    if str_eq(self.pops[j].0.value.as_str(), state) {
                        proof {
                            lemma_find_name(self.spec_pops_keys(), state@, j as int);
                        }
                        return Some(State { def: &self.defs[i].1, pops: &self.pops[j].1 });
                    }
                    j += 1;
                }
                proof {
                    lemma_find_name(self.spec_pops_keys(), state@, np as int);
                }
                return None;
            }
            i += 1;
        }
        proof {
            lemma_find_name(self.spec_def_keys(), state@, nd as int);
        }
        None
    }
}

} // verus!
