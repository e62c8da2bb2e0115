use vic3data::alert::AlertType;
use vic3data::country::{CountryTier, RawCountryType};
use vic3data::fixed::{Fixed, FIXED_MAX};
use vic3data::ident::{Ident, IdentKind};
use vic3data::numeric::{format_uint, parse_uint};
use vic3data::state::{CreatePop, GameState, RegionPops, State, StateCreation, StateDefinition};

fn ident(s: &str) -> Ident {
    Ident::from_str(s)
}

#[test]
fn ident_prefixes() {
    let c = Ident::from_str("c:SWE");
    assert_eq!(c.kind, IdentKind::Country);
    assert_eq!(c.value, "SWE");

    let s = Ident::from_str("s:STATE_SKANE");
    assert_eq!(s.kind, IdentKind::State);
    assert_eq!(s.value, "STATE_SKANE");

    let r = Ident::from_string("region_state:STATE_SKANE".to_string());
    assert_eq!(r.kind, IdentKind::RegionState);
    assert_eq!(r.value, "STATE_SKANE");

    let u = Ident::from_str("swedish");
    assert_eq!(u.kind, IdentKind::Unknown);
    assert_eq!(u.value, "swedish");
}

#[test]
fn ident_names() {
    let a = Ident::from_str("c:SWE");
    let b = Ident::from_str("s:SWE");
    assert!(a.eq_name(&b));
    assert!(!a.eq_name(&Ident::from_str("NOR")));
    assert_eq!(a.full_name(), "c:SWE");
    assert_eq!(Ident::from_str("plain").full_name(), "plain");
}

#[test]
fn country_tier_keywords() {
    let pairs = [
        (CountryTier::CityState, "city_state"),
        (CountryTier::Principality, "principality"),
        (CountryTier::GrandPrincipality, "grand_principality"),
        (CountryTier::Kingdom, "kingdom"),
        (CountryTier::Empire, "empire"),
        (CountryTier::Hegemony, "hegemony"),
    ];
    for (tier, word) in pairs {
        assert_eq!(tier.keyword(), word);
        assert_eq!(CountryTier::from_keyword(word), Some(tier));
    }
    assert_eq!(CountryTier::from_keyword("duchy"), None);
}

#[test]
fn raw_country_type_recognition() {
    let raw = RawCountryType {
        is_colonizable: true,
        is_unrecognized: true,
        uses_prestige: false,
        has_events: false,
        has_military: true,
        has_economy: false,
        has_politics: false,
        can_research: false,
        default_rank: "decentralized_power".to_string(),
    };
    assert!(!raw.is_recognized());
}

#[test]
fn alert_labels() {
    assert_eq!(AlertType::Information.as_str(), "Information");
    assert_eq!(AlertType::Warning.as_str(), "Warning");
    assert_eq!(AlertType::Error.as_str(), "Error");
}

fn sample_pops() -> RegionPops {
    RegionPops {
        regions: vec![
            (
                ident("c:SWE"),
                vec![CreatePop { culture: ident("swedish"), religion: None, size: 10_000 }],
            ),
            (
                ident("c:NOR"),
                vec![
                    CreatePop {
                        culture: ident("norwegian"),
                        religion: Some(ident("protestant")),
                        size: 500,
                    },
                ],
            ),
        ],
    }
}

#[test]
fn region_pops_lookup() {
    let pops = sample_pops();
    let swe = pops.get("SWE").unwrap();
    assert_eq!(swe.len(), 1);
    assert_eq!(swe[0].size, 10_000);
    let nor = pops.get("NOR").unwrap();
    assert_eq!(nor[0].culture.value, "norwegian");
    assert!(pops.get("DEN").is_none());
}

#[test]
fn state_lookup() {
    let def = StateDefinition {
        states: vec![
            StateCreation {
                country: ident("c:SWE"),
                owned_provinces: vec!["x112233".to_string()],
                state_type: vec![],
            },
            StateCreation {
                country: ident("c:NOR"),
                owned_provinces: vec![],
                state_type: vec![ident("unincorporated")],
            },
        ],
        homelands: vec![ident("swedish")],
    };
    let pops = sample_pops();
    let state = State { def: &def, pops: &pops };
    let region = state.get("NOR").unwrap();
    assert_eq!(region.def.country.value, "NOR");
    assert_eq!(region.pops[0].size, 500);
    assert!(state.get("DEN").is_none());
}

#[test]
fn game_state_lookup() {
    let def = StateDefinition {
        states: vec![
            StateCreation { country: ident("c:SWE"), owned_provinces: vec![], state_type: vec![] },
        ],
        homelands: vec![],
    };
    let game = GameState {
        defs: vec![(ident("s:STATE_SKANE"), def)],
        pops: vec![(ident("s:STATE_SKANE"), sample_pops())],
    };
    let state = game.get("STATE_SKANE").unwrap();
    assert_eq!(state.def.states.len(), 1);
    assert!(state.get("SWE").is_some());
    assert!(game.get("STATE_ELSEWHERE").is_none());

    let missing_pops = GameState {
        defs: game.defs.clone(),
        pops: vec![],
    };
    assert!(missing_pops.get("STATE_SKANE").is_none());
}

#[test]
fn fixed_parse_and_format() {
    assert_eq!(Fixed::parse("0.5"), Some(Fixed { micros: 500_000 }));
    assert_eq!(Fixed::parse("1"), Some(Fixed { micros: 1_000_000 }));
    assert_eq!(Fixed::parse("-0.25"), Some(Fixed { micros: -250_000 }));
    assert_eq!(Fixed::parse("1.2345678"), Some(Fixed { micros: 1_234_567 }));
    assert_eq!(Fixed::parse("99999999999999999999"), Some(Fixed { micros: FIXED_MAX }));
    assert_eq!(Fixed::parse(".5"), None);
    assert_eq!(Fixed::parse("1."), None);
    assert_eq!(Fixed::parse("-"), None);
    assert_eq!(Fixed::parse(""), None);
    assert_eq!(Fixed::parse("1.2.3"), None);
    assert_eq!(Fixed::parse("1e3"), None);
    assert_eq!(Fixed { micros: 1_500_000 }.format(), "1.500000");
    assert_eq!(Fixed { micros: -42 }.format(), "-0.000042");
    assert_eq!(Fixed { micros: 0 }.format(), "0.000000");
}

#[test]
fn uint_parse_and_format() {
    assert_eq!(parse_uint("255", 255), Some(255));
    assert_eq!(parse_uint("256", 255), None);
    assert_eq!(parse_uint("0", 255), Some(0));
    assert_eq!(parse_uint("", 255), None);
    assert_eq!(parse_uint("12a", 255), None);
    assert_eq!(parse_uint("-1", 255), None);
    assert_eq!(format_uint(0), "0");
    assert_eq!(format_uint(360), "360");
}
