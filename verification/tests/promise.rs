use freeports::promise::{Promise, PromiseError};
use std::collections::hash_map::DefaultHasher;
use std::hash::{Hash, Hasher};

#[test]
fn new_interprets_the_suffixes() {
    let cases = [
        ("ref", "ref", false, false),
        ("ref!", "ref", true, false),
        ("ref[]", "ref", false, true),
        ("ref[]!", "ref", true, true),
        ("ref![]", "ref!", false, true),
        ("!", "", true, false),
        ("[]", "", false, true),
        ("", "", false, false),
        ("a!b", "a!b", false, false),
        ("a[]b", "a[]b", false, false),
        ("ref[", "ref[", false, false),
        ("ref]", "ref]", false, false),
        ("ref!!", "ref!", true, false),
        ("ref[][]", "ref[]", false, true),
    ];
    for (raw, id, strict, multiple) in cases {
        let p = Promise::new(raw);
        assert_eq!(p.id(), id, "id per {raw:?}");
        assert_eq!(p.strict(), strict, "strict per {raw:?}");
        assert_eq!(p.multiple(), multiple, "multiple per {raw:?}");
    }
}

#[test]
fn strip_order_is_not_symmetric() {
    let bang_then_brackets = Promise::new("ref![]");
    assert_eq!(bang_then_brackets.id(), "ref!");
    assert!(!bang_then_brackets.strict());
    assert!(bang_then_brackets.multiple());

    let brackets_then_bang = Promise::new("ref[]!");
    assert_eq!(brackets_then_bang.id(), "ref");
    assert!(brackets_then_bang.strict());
    assert!(brackets_then_bang.multiple());

    assert_ne!(bang_then_brackets, brackets_then_bang);
}

#[test]
fn flag_already_on_leaves_suffix_in_id() {
    let strict = Promise::with_flags("weird!", true, false);
    assert_eq!(strict.id(), "weird!");
    assert!(strict.strict());
    assert!(!strict.multiple());

    let multiple = Promise::with_flags("weird[]", false, true);
    assert_eq!(multiple.id(), "weird[]");
    assert!(!multiple.strict());
    assert!(multiple.multiple());

    let both = Promise::with_flags("weird[]!", true, true);
    assert_eq!(both.id(), "weird[]!");
}

#[test]
fn with_flags_with_flags_off_matches_new() {
    for raw in ["ref", "ref!", "ref[]", "ref[]!", "ref![]", "", "!", "[]"] {
        assert_eq!(Promise::with_flags(raw, false, false), Promise::new(raw), "raw {raw:?}");
    }
}

#[test]
fn display_reformats_to_canonical_form() {
    for (raw, expected) in [("ref", "ref"), ("ref!", "ref!"), ("ref[]", "ref[]"), ("ref[]!", "ref[]!"), ("ref![]", "ref![]")] {
        assert_eq!(Promise::new(raw).to_string(), expected, "raw {raw:?}");
    }
}

#[test]
fn canonical_form_reparses_identically() {
    let ids = ["", "a", "a!", "a[]", "a![]", "a[]!", "!", "[]", "][", "a!!", "a[][]"];
    for id in ids {
        for strict in [false, true] {
            for multiple in [false, true] {
                let p = Promise::with_flags(id, strict, multiple);
                let reparsed = Promise::new(&p.to_string());
                assert_eq!(reparsed, p, "id {id:?} strict {strict} multiple {multiple}");
            }
        }
    }
}

#[test]
fn equal_only_when_id_and_flags_match() {
    let base = Promise::new("ref");
    assert_eq!(base, Promise::new("ref"));
    assert_ne!(base, Promise::new("ref!"));
    assert_ne!(base, Promise::new("ref[]"));
    assert_ne!(base, Promise::new("other"));
}

#[test]
fn equal_promises_have_the_same_hash() {
    let hash_of = |p: &Promise| {
        let mut h = DefaultHasher::new();
        p.hash(&mut h);
        h.finish()
    };
    assert_eq!(hash_of(&Promise::new("ref[]!")), hash_of(&Promise::with_flags("ref", true, true)));
}

#[test]
fn ordering_follows_id_then_strict_then_multiple() {
    let mut v = [
        Promise::with_flags("b", false, false),
        Promise::with_flags("a", true, false),
        Promise::with_flags("a", false, true),
        Promise::with_flags("a", false, false),
    ];
    v.sort();
    let canonical: Vec<String> = v.iter().map(Promise::to_string).collect();
    assert_eq!(canonical, vec!["a", "a[]", "a!", "b"]);
}

#[test]
fn unresolved_reports_id_without_suffixes() {
    let err = Promise::new("fund[]!").unresolved();
    assert_eq!(err, PromiseError::Unresolved { id: "fund".into() });
    assert_eq!(err.to_string(), "promise 'fund' has no value in the resolution map");
}

#[test]
fn circular_shows_the_full_chain() {
    let err = PromiseError::Circular { chain: vec!["a".into(), "b".into(), "a".into()] };
    assert_eq!(err.to_string(), "circular promise chain: a -> b -> a");
}
