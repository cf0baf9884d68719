use freeports::match_fund::MatchFund;
use std::collections::HashSet;

#[test]
fn keeps_the_original_name() {
    assert_eq!(MatchFund::new("Café  Fund").name(), "Café  Fund");
}

#[test]
fn computes_the_normalized_form() {
    assert_eq!(MatchFund::new("Café  Fund").normalized(), "cafe fund");
}

#[test]
fn accepts_both_str_and_string() {
    assert_eq!(MatchFund::new("A").normalized(), MatchFund::new(&String::from("A")).normalized());
}

#[test]
fn an_empty_name_is_legitimate() {
    let empty = MatchFund::new("");
    assert_eq!(empty.name(), "");
    assert_eq!(empty.normalized(), "");
}

#[test]
fn the_normalized_form_has_the_same_identity_as_the_original() {
    let original = MatchFund::new("Café, S.p.A. – Fondo");
    assert_eq!(MatchFund::new(original.normalized()), original);
}

#[test]
fn the_documented_example_holds() {
    let written = MatchFund::new("Café Fund (EUR)");
    let shouted = MatchFund::new("CAFE  FUND EUR");
    assert_eq!(written, shouted);
    assert_eq!(written.name(), "Café Fund (EUR)");
}

#[test]
fn equivalent_names_are_the_same_fund() {
    let pairs = [
        ("Café Fund", "CAFE   FUND"),
        ("Acme S.p.A.", "Acme SpA"),
        ("Rock & Roll", "Rock and Roll"),
        ("Fondo-Alpha", "Fondo Alpha"),
        ("  Alpha  ", "Alpha"),
    ];
    for (a, b) in pairs {
        assert_eq!(MatchFund::new(a), MatchFund::new(b), "{a:?} vs {b:?}");
    }
}

#[test]
fn different_names_are_different_funds() {
    assert_ne!(MatchFund::new("Fund A"), MatchFund::new("Fund B"));
    assert_ne!(MatchFund::new("Alpha Fund"), MatchFund::new("Alphafund"));
}

#[test]
fn matches_avoids_constructing_a_second_match_fund() {
    let fund = MatchFund::new("Café Fund");
    assert!(fund.matches("CAFE  FUND"));
    assert!(!fund.matches("Altro Fondo"));
}

#[test]
fn matches_and_equality_always_agree() {
    let names = ["Café Fund", "CAFE FUND", "Altro", "", "  ", "Rock & Roll", "Rock and Roll"];
    for a in names {
        let fund = MatchFund::new(a);
        for b in names {
            assert_eq!(fund.matches(b), fund == MatchFund::new(b), "{a:?} vs {b:?}");
        }
    }
}

#[test]
fn display_shows_the_normalized_form() {
    assert_eq!(MatchFund::new("Café  Fund").to_string(), "cafe fund");
}

#[test]
fn debug_shows_both_forms() {
    let debug = format!("{:?}", MatchFund::new("Café Fund"));
    assert!(debug.contains("Café Fund"), "{debug}");
    assert!(debug.contains("cafe fund"), "{debug}");
}

#[test]
fn a_clone_keeps_name_and_identity() {
    let fund = MatchFund::new("Café Fund");
    let copy = fund.clone();
    assert_eq!(copy.name(), fund.name());
    assert_eq!(copy, fund);
}

#[test]
fn is_usable_as_a_set_key() {
    let mut set = HashSet::new();
    set.insert(MatchFund::new("Café Fund"));
    set.insert(MatchFund::new("CAFE   FUND"));
    set.insert(MatchFund::new("Altro"));
    assert_eq!(set.len(), 2);
}
