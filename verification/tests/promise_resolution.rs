use freeports::classes::value::BlockValue;
use freeports::promise::{Promise, PromiseError};
use freeports::promise_resolution::{FlatPromiseMap, PromiseMap};

fn promise(raw: &str) -> BlockValue {
    BlockValue::Promise(Promise::new(raw))
}

fn map_of(pairs: Vec<(&str, BlockValue)>) -> PromiseMap {
    let mut map = PromiseMap::new();
    map.merge(pairs.into_iter().map(|(k, v)| (k.to_string(), v)).collect());
    map
}

/// A flattened map holding exactly these contributions, repeated keys accumulating.
fn flat(pairs: Vec<(&str, BlockValue)>) -> FlatPromiseMap {
    map_of(pairs).flatten().unwrap()
}

fn get<'a>(map: &'a FlatPromiseMap, id: &str) -> Option<&'a [BlockValue]> {
    map.get(id).map(|v| v.as_slice())
}

fn reinsert(once: &FlatPromiseMap) -> PromiseMap {
    let mut again = PromiseMap::new();
    for (id, contributions) in once.entries() {
        for v in contributions {
            again.push(id, v.clone());
        }
    }
    again
}

#[test]
fn accumulates_contributions_in_order() {
    let mut map = PromiseMap::new();
    map.push("fund", BlockValue::Int(1));
    map.push("fund", BlockValue::Int(2));
    assert_eq!(map.get("fund").map(|v| v.as_slice()), Some(&[BlockValue::Int(1), BlockValue::Int(2)][..]));
}

#[test]
fn merge_pours_multiple_pairs_at_once() {
    let mut map = PromiseMap::new();
    map.merge(vec![("a".to_string(), BlockValue::Int(1)), ("b".to_string(), BlockValue::Int(2))]);
    map.merge(vec![("a".to_string(), BlockValue::Int(3))]);
    assert_eq!(map.get("a").map(|v| v.as_slice()), Some(&[BlockValue::Int(1), BlockValue::Int(3)][..]));
    assert_eq!(map.get("b").map(|v| v.as_slice()), Some(&[BlockValue::Int(2)][..]));
    assert_eq!(map.len(), 2);
}

#[test]
fn a_new_map_is_empty() {
    let map = PromiseMap::new();
    assert!(map.is_empty());
    assert_eq!(map.len(), 0);
    assert_eq!(map.get("assente"), None);
}

#[test]
fn is_built_from_an_iterator() {
    let map = map_of(vec![("a", BlockValue::Int(1)), ("a", BlockValue::Int(2)), ("b", BlockValue::Int(3))]);
    assert_eq!(map.get("a").map(|v| v.as_slice()), Some(&[BlockValue::Int(1), BlockValue::Int(2)][..]));
    assert_eq!(map.len(), 2);
}

#[test]
fn iterates_in_key_order() {
    let map = map_of(vec![("z", BlockValue::Int(1)), ("a", BlockValue::Int(2)), ("m", BlockValue::Int(3))]);
    let keys: Vec<&str> = map.entries().iter().map(|(k, _)| k.as_str()).collect();
    assert_eq!(keys, vec!["a", "m", "z"]);
}

#[test]
fn a_single_contribution_stays_alone() {
    let map = map_of(vec![("x", BlockValue::Int(42))]);
    let f = map.flatten().unwrap();
    assert_eq!(get(&f, "x"), Some(&[BlockValue::Int(42)][..]));
}

#[test]
fn multiple_contributions_stay_separate() {
    let f = flat(vec![("x", BlockValue::Int(1)), ("x", BlockValue::Int(2)), ("x", BlockValue::Int(3))]);
    assert_eq!(get(&f, "x"), Some(&[BlockValue::Int(1), BlockValue::Int(2), BlockValue::Int(3)][..]));
}

#[test]
fn an_empty_map_flattens_to_an_empty_map() {
    assert!(PromiseMap::new().flatten().unwrap().is_empty());
}

#[test]
fn a_null_only_id_disappears_from_the_flat_map() {
    let f = flat(vec![("solo-null", BlockValue::Null), ("solo-null", BlockValue::Null)]);
    assert_eq!(get(&f, "solo-null"), None);
    assert!(f.is_empty());
}

#[test]
fn a_null_contribution_disappears_from_among_the_others() {
    let f = flat(vec![("x", BlockValue::Int(1)), ("x", BlockValue::Null), ("x", BlockValue::Int(2))]);
    assert_eq!(get(&f, "x"), Some(&[BlockValue::Int(1), BlockValue::Int(2)][..]));
}

#[test]
fn resolves_a_simple_reference() {
    let f = flat(vec![("source", promise("target")), ("target", BlockValue::Int(99))]);
    assert_eq!(get(&f, "source"), Some(&[BlockValue::Int(99)][..]));
    assert_eq!(get(&f, "target"), Some(&[BlockValue::Int(99)][..]));
}

#[test]
fn resolves_a_chain_of_references() {
    let f = flat(vec![("a", promise("b")), ("b", promise("c")), ("c", BlockValue::Int(7))]);
    assert_eq!(get(&f, "a"), Some(&[BlockValue::Int(7)][..]));
    assert_eq!(get(&f, "b"), Some(&[BlockValue::Int(7)][..]));
}

#[test]
fn a_reference_receives_the_contributions_of_its_target() {
    let f = flat(vec![("src", promise("t")), ("t", BlockValue::Int(1)), ("t", BlockValue::Int(2))]);
    let expected = [BlockValue::Int(1), BlockValue::Int(2)];
    assert_eq!(get(&f, "src"), Some(&expected[..]));
    assert_eq!(get(&f, "t"), Some(&expected[..]));
}

#[test]
fn an_id_with_two_promised_contributions_becomes_the_values_of_both() {
    let f = flat(vec![
        ("x", promise("a")),
        ("x", promise("b")),
        ("a", BlockValue::Int(1)),
        ("b", BlockValue::Int(2)),
    ]);
    assert_eq!(get(&f, "x"), Some(&[BlockValue::Int(1), BlockValue::Int(2)][..]));
}

#[test]
fn unpromised_contributions_stay_alongside_resolved_ones() {
    let f = flat(vec![("x", BlockValue::Str("fisso".into())), ("x", promise("a")), ("a", BlockValue::Int(5))]);
    assert_eq!(get(&f, "x"), Some(&[BlockValue::Str("fisso".into()), BlockValue::Int(5)][..]));
}

#[test]
fn a_reference_splices_the_contributions_of_its_target_among_its_own() {
    let f = flat(vec![
        ("x", promise("a")),
        ("x", BlockValue::Int(5)),
        ("a", BlockValue::Int(1)),
        ("a", BlockValue::Int(2)),
    ]);
    assert_eq!(get(&f, "x"), Some(&[BlockValue::Int(1), BlockValue::Int(2), BlockValue::Int(5)][..]));
}

#[test]
fn two_references_to_the_same_multi_contribution_target_splice_twice() {
    let f = flat(vec![
        ("x", promise("a")),
        ("x", promise("a")),
        ("a", BlockValue::Int(1)),
        ("a", BlockValue::Int(2)),
    ]);
    assert_eq!(
        get(&f, "x"),
        Some(&[BlockValue::Int(1), BlockValue::Int(2), BlockValue::Int(1), BlockValue::Int(2)][..])
    );
    assert_eq!(
        f.fulfill(&Promise::new("x[]")).unwrap(),
        BlockValue::List(vec![BlockValue::Int(1), BlockValue::Int(2), BlockValue::Int(1), BlockValue::Int(2)])
    );
    assert_eq!(f.fulfill(&Promise::new("x")).unwrap(), BlockValue::Int(2));
}

#[test]
fn the_promise_flags_do_not_affect_flattening() {
    let f = flat(vec![("src", promise("t[]!")), ("t", BlockValue::Int(1))]);
    assert_eq!(get(&f, "src"), Some(&[BlockValue::Int(1)][..]));
}

#[test]
fn does_not_descend_into_containers() {
    let nested = BlockValue::List(vec![promise("t")]);
    let f = flat(vec![("src", nested.clone()), ("t", BlockValue::Int(1))]);
    assert_eq!(get(&f, "src"), Some(&[nested][..]));
}

fn one_list_contribution() -> FlatPromiseMap {
    flat(vec![("x", BlockValue::List(vec![BlockValue::Int(1), BlockValue::Int(2)]))])
}

fn two_scalar_contributions() -> FlatPromiseMap {
    flat(vec![("x", BlockValue::Int(1)), ("x", BlockValue::Int(2))])
}

#[test]
fn one_list_contribution_is_not_two_scalar_contributions() {
    let container = one_list_contribution();
    let scalars = two_scalar_contributions();
    assert_eq!(get(&container, "x"), Some(&[BlockValue::List(vec![BlockValue::Int(1), BlockValue::Int(2)])][..]));
    assert_eq!(get(&scalars, "x"), Some(&[BlockValue::Int(1), BlockValue::Int(2)][..]));
    assert_ne!(container.entries(), scalars.entries());
}

#[test]
fn a_normal_promise_on_a_single_list_contribution_returns_the_whole_list() {
    assert_eq!(
        one_list_contribution().fulfill(&Promise::new("x")).unwrap(),
        BlockValue::List(vec![BlockValue::Int(1), BlockValue::Int(2)])
    );
}

#[test]
fn a_normal_promise_on_two_scalar_contributions_still_returns_the_last() {
    assert_eq!(two_scalar_contributions().fulfill(&Promise::new("x")).unwrap(), BlockValue::Int(2));
}

#[test]
fn a_multiple_promise_on_a_single_list_contribution_wraps_it() {
    assert_eq!(
        one_list_contribution().fulfill(&Promise::new("x[]")).unwrap(),
        BlockValue::List(vec![BlockValue::List(vec![BlockValue::Int(1), BlockValue::Int(2)])])
    );
}

#[test]
fn a_multiple_promise_on_two_scalar_contributions_returns_both() {
    assert_eq!(
        two_scalar_contributions().fulfill(&Promise::new("x[]")).unwrap(),
        BlockValue::List(vec![BlockValue::Int(1), BlockValue::Int(2)])
    );
}

#[test]
fn an_empty_list_is_a_legitimate_value() {
    let f = flat(vec![("x", BlockValue::List(Vec::new()))]);
    assert_eq!(get(&f, "x"), Some(&[BlockValue::List(Vec::new())][..]));
    assert_eq!(f.fulfill(&Promise::new("x")).unwrap(), BlockValue::List(Vec::new()));
    assert_eq!(f.fulfill(&Promise::new("x[]")).unwrap(), BlockValue::List(vec![BlockValue::List(Vec::new())]));
}

#[test]
fn a_nested_list_contribution_survives_intact() {
    let nested = BlockValue::List(vec![
        BlockValue::List(vec![BlockValue::Int(1)]),
        BlockValue::List(vec![BlockValue::Int(2)]),
    ]);
    let f = flat(vec![("x", nested.clone())]);
    assert_eq!(get(&f, "x"), Some(&[nested.clone()][..]));
    assert_eq!(f.fulfill(&Promise::new("x")).unwrap(), nested);
}

#[test]
fn a_set_contribution_survives_intact() {
    let set = BlockValue::SetOf(vec![BlockValue::Int(1), BlockValue::Int(2)]);
    let f = flat(vec![("x", set.clone())]);
    assert_eq!(get(&f, "x"), Some(&[set.clone()][..]));
    assert_eq!(f.fulfill(&Promise::new("x")).unwrap(), set.clone());
    assert_eq!(f.fulfill(&Promise::new("x[]")).unwrap(), BlockValue::List(vec![set]));
}

#[test]
fn a_map_contribution_survives_intact() {
    let inner = BlockValue::MapOf(vec![("a".to_string(), BlockValue::Int(1)), ("b".to_string(), BlockValue::Int(2))]);
    let f = flat(vec![("x", inner.clone())]);
    assert_eq!(get(&f, "x"), Some(&[inner.clone()][..]));
    assert_eq!(f.fulfill(&Promise::new("x")).unwrap(), inner.clone());
    assert_eq!(f.fulfill(&Promise::new("x[]")).unwrap(), BlockValue::List(vec![inner]));
}

#[test]
fn a_reference_to_an_id_whose_only_contribution_is_a_list_yields_the_list() {
    let list = BlockValue::List(vec![BlockValue::Int(1), BlockValue::Int(2)]);
    let f = flat(vec![("src", promise("t")), ("t", list.clone())]);
    assert_eq!(get(&f, "src"), Some(&[list.clone()][..]));
    assert_eq!(get(&f, "t"), Some(&[list.clone()][..]));
    assert_eq!(f.fulfill(&Promise::new("src")).unwrap(), list);
}

#[test]
fn flattening_a_list_contribution_twice_does_not_unwrap_it() {
    let once = flat(vec![
        ("contenitore", BlockValue::List(vec![BlockValue::Int(1), BlockValue::Int(2)])),
        ("separati", BlockValue::Int(1)),
        ("separati", BlockValue::Int(2)),
    ]);
    let again = reinsert(&once).flatten().unwrap();
    assert_eq!(again.entries(), once.entries());
    assert_ne!(get(&once, "contenitore"), get(&once, "separati"));
}

#[test]
fn an_unknown_id_leaves_the_promise_in_place() {
    let f = flat(vec![("source", promise("nowhere"))]);
    assert_eq!(get(&f, "source"), Some(&[promise("nowhere")][..]));
}

#[test]
fn a_reference_to_a_null_only_target_stays_pending() {
    let f = flat(vec![("source", promise("t")), ("t", BlockValue::Null)]);
    assert_eq!(get(&f, "source"), Some(&[promise("t")][..]));
    assert_eq!(get(&f, "t"), None);
}

#[test]
fn a_chain_that_ends_in_nothing_stops_on_the_pending_promise() {
    let f = flat(vec![("a", promise("b")), ("b", promise("nowhere"))]);
    assert_eq!(get(&f, "b"), Some(&[promise("nowhere")][..]));
    assert_eq!(get(&f, "a"), Some(&[promise("nowhere")][..]));
}

#[test]
fn a_pending_reference_does_not_prevent_others_from_resolving() {
    let f = flat(vec![("a", promise("nowhere")), ("b", promise("c")), ("c", BlockValue::Int(3))]);
    assert_eq!(get(&f, "a"), Some(&[promise("nowhere")][..]));
    assert_eq!(get(&f, "b"), Some(&[BlockValue::Int(3)][..]));
}

#[test]
fn a_self_reference_is_a_cycle() {
    let map = map_of(vec![("a", promise("a"))]);
    assert_eq!(map.flatten().unwrap_err(), PromiseError::Circular { chain: vec!["a".into(), "a".into()] });
}

#[test]
fn two_ids_that_reference_each_other_are_a_cycle() {
    let map = map_of(vec![("a", promise("b")), ("b", promise("a"))]);
    assert_eq!(
        map.flatten().unwrap_err(),
        PromiseError::Circular { chain: vec!["a".into(), "b".into(), "a".into()] }
    );
}

#[test]
fn the_reported_chain_covers_the_whole_cycle() {
    let map = map_of(vec![("a", promise("b")), ("b", promise("c")), ("c", promise("a"))]);
    let err = map.flatten().unwrap_err();
    assert_eq!(
        err,
        PromiseError::Circular { chain: vec!["a".into(), "b".into(), "c".into(), "a".into()] }
    );
    assert_eq!(err.to_string(), "circular promise chain: a -> b -> c -> a");
}

#[test]
fn a_path_that_enters_a_cycle_also_reports_the_entry_point() {
    let map = map_of(vec![("ingresso", promise("a")), ("a", promise("b")), ("b", promise("a"))]);
    assert_eq!(
        map.flatten().unwrap_err(),
        PromiseError::Circular { chain: vec!["a".into(), "b".into(), "a".into()] }
    );
}

#[test]
fn the_reported_chain_is_deterministic() {
    let forward = map_of(vec![("a", promise("b")), ("b", promise("c")), ("c", promise("a"))]);
    let reversed = map_of(vec![("c", promise("a")), ("b", promise("c")), ("a", promise("b"))]);
    assert_eq!(forward.flatten().unwrap_err(), reversed.flatten().unwrap_err());
}

#[test]
fn a_cycle_fails_the_entire_flattening() {
    let map = map_of(vec![("sano", BlockValue::Int(1)), ("a", promise("b")), ("b", promise("a"))]);
    assert!(map.flatten().is_err());
}

#[test]
fn a_scalar_value_resolves_to_itself() {
    let map = flat(vec![("fund", BlockValue::Str("Acme".into()))]);
    assert_eq!(map.fulfill(&Promise::new("fund")).unwrap(), BlockValue::Str("Acme".into()));
}

#[test]
fn on_several_contributions_the_last_one_wins() {
    let map = flat(vec![("fund", BlockValue::Int(1)), ("fund", BlockValue::Int(2)), ("fund", BlockValue::Int(3))]);
    assert_eq!(map.fulfill(&Promise::new("fund")).unwrap(), BlockValue::Int(3));
}

#[test]
fn a_multiple_promise_always_gets_a_list() {
    let single = flat(vec![("fund", BlockValue::Int(1))]);
    assert_eq!(single.fulfill(&Promise::new("fund[]")).unwrap(), BlockValue::List(vec![BlockValue::Int(1)]));
    let several = flat(vec![("fund", BlockValue::Int(1)), ("fund", BlockValue::Int(2))]);
    assert_eq!(
        several.fulfill(&Promise::new("fund[]")).unwrap(),
        BlockValue::List(vec![BlockValue::Int(1), BlockValue::Int(2)])
    );
}

#[test]
fn a_missing_id_is_unresolvable() {
    let map = flat(vec![("altro", BlockValue::Int(1))]);
    assert_eq!(map.fulfill(&Promise::new("fund")).unwrap_err(), PromiseError::Unresolved { id: "fund".into() });
}

#[test]
fn a_null_value_is_unresolvable() {
    let f = flat(vec![("fund", BlockValue::Null)]);
    assert_eq!(f.fulfill(&Promise::new("fund")).unwrap_err(), PromiseError::Unresolved { id: "fund".into() });
    assert!(f.fulfill(&Promise::new("fund[]")).is_err());
}

#[test]
fn a_value_still_a_promise_is_unresolvable() {
    let map = flat(vec![("fund", promise("nowhere"))]);
    assert_eq!(map.fulfill(&Promise::new("fund")).unwrap_err(), PromiseError::Unresolved { id: "fund".into() });
}

#[test]
fn pending_promise_contributions_are_discarded() {
    let map = flat(vec![("fund", BlockValue::Int(1)), ("fund", promise("nowhere")), ("fund", BlockValue::Int(2))]);
    assert_eq!(map.fulfill(&Promise::new("fund")).unwrap(), BlockValue::Int(2));
    assert_eq!(
        map.fulfill(&Promise::new("fund[]")).unwrap(),
        BlockValue::List(vec![BlockValue::Int(1), BlockValue::Int(2)])
    );
}

#[test]
fn an_id_with_only_pending_contributions_is_unresolvable() {
    let map = flat(vec![("fund", promise("a")), ("fund", promise("b"))]);
    assert!(map.fulfill(&Promise::new("fund")).is_err());
    assert!(map.fulfill(&Promise::new("fund[]")).is_err());
}

#[test]
fn strict_does_not_change_the_resolution_outcome() {
    let map = flat(vec![("fund", BlockValue::Int(1))]);
    assert_eq!(map.fulfill(&Promise::new("fund!")).unwrap(), BlockValue::Int(1));
    let empty = FlatPromiseMap::new();
    assert_eq!(
        empty.fulfill(&Promise::new("fund!")).unwrap_err(),
        empty.fulfill(&Promise::new("fund")).unwrap_err()
    );
}

#[test]
fn the_error_names_the_id_without_suffixes() {
    let empty = FlatPromiseMap::new();
    assert_eq!(empty.fulfill(&Promise::new("fund[]!")).unwrap_err(), PromiseError::Unresolved { id: "fund".into() });
}

#[test]
fn flattening_is_idempotent() {
    let once = flat(vec![
        ("a", promise("b")),
        ("b", BlockValue::Int(1)),
        ("b", BlockValue::Int(2)),
        ("c", BlockValue::Str("x".into())),
        ("d", promise("nowhere")),
        ("e", BlockValue::List(vec![BlockValue::Int(1), BlockValue::Int(2)])),
    ]);
    let again = reinsert(&once).flatten().unwrap();
    assert_eq!(again.entries(), once.entries());
}

#[test]
fn a_long_chain_resolves_entirely_to_the_final_value() {
    const LENGTH: usize = 500;
    let mut map = PromiseMap::new();
    for i in 0..LENGTH {
        map.push(&format!("id{i}"), BlockValue::Promise(Promise::new(&format!("id{}", i + 1))));
    }
    map.push(&format!("id{LENGTH}"), BlockValue::Int(42));
    let f = map.flatten().unwrap();
    for i in 0..=LENGTH {
        assert_eq!(get(&f, &format!("id{i}")), Some(&[BlockValue::Int(42)][..]), "id{i}");
    }
}

#[test]
fn many_references_to_the_same_id_all_resolve() {
    let mut map = PromiseMap::new();
    map.push("target", BlockValue::Int(7));
    for i in 0..200 {
        map.push(&format!("src{i}"), BlockValue::Promise(Promise::new("target")));
    }
    let f = map.flatten().unwrap();
    for i in 0..200 {
        assert_eq!(get(&f, &format!("src{i}")), Some(&[BlockValue::Int(7)][..]));
    }
}

#[test]
fn a_long_cycle_is_detected() {
    const LENGTH: usize = 300;
    let mut map = PromiseMap::new();
    for i in 0..LENGTH {
        map.push(&format!("id{i:03}"), BlockValue::Promise(Promise::new(&format!("id{:03}", (i + 1) % LENGTH))));
    }
    match map.flatten().unwrap_err() {
        PromiseError::Circular { chain } => assert_eq!(chain.len(), LENGTH + 1),
        other => panic!("expected a cycle, found {other:?}"),
    }
}

#[test]
fn without_promises_flattening_preserves_every_contribution() {
    for n_contributions in 1..8_usize {
        let mut map = PromiseMap::new();
        for i in 0..n_contributions {
            map.push("scalari", BlockValue::Int(i as i64));
            map.push("contenitori", BlockValue::List(vec![BlockValue::Int(i as i64)]));
            map.push("misti", BlockValue::Int(i as i64));
            map.push("misti", BlockValue::List(vec![BlockValue::Int(i as i64)]));
        }
        let f = map.flatten().unwrap();
        assert_eq!(f.len(), map.len(), "with {n_contributions} contributions");
        for (id, contributions) in map.entries() {
            assert_eq!(f.get(id), Some(contributions), "id `{id}` with {n_contributions} contributions");
        }
    }
}

#[test]
fn a_long_list_of_contributions_keeps_a_list_valued_one_in_place() {
    const TOTAL: usize = 200;
    const CONTAINER_AT: usize = 137;
    let container = BlockValue::List(vec![BlockValue::Int(-1), BlockValue::Int(-2)]);
    let mut map = PromiseMap::new();
    for i in 0..TOTAL {
        if i == CONTAINER_AT {
            map.push("x", container.clone());
        } else {
            map.push("x", BlockValue::Int(i as i64));
        }
    }
    let f = map.flatten().unwrap();
    let contributions = f.get("x").expect("the id has contributions");
    assert_eq!(contributions.len(), TOTAL);
    assert_eq!(contributions[CONTAINER_AT], container);
    assert_eq!(contributions[0], BlockValue::Int(0));
    match f.fulfill(&Promise::new("x[]")).unwrap() {
        BlockValue::List(values) => {
            assert_eq!(values.len(), TOTAL);
            assert_eq!(values[CONTAINER_AT], container);
            assert_eq!(values[TOTAL - 1], BlockValue::Int((TOTAL - 1) as i64));
        }
        other => panic!("expected a list, found {other:?}"),
    }
    assert_eq!(f.fulfill(&Promise::new("x")).unwrap(), BlockValue::Int((TOTAL - 1) as i64));
}

#[test]
fn the_flat_map_never_holds_an_empty_contribution_list() {
    let mut map = PromiseMap::new();
    map.push("scalare", BlockValue::Int(1));
    map.push("multi", BlockValue::Int(1));
    map.push("multi", BlockValue::Int(2));
    map.push("riferimento", BlockValue::Promise(Promise::new("multi")));
    map.push("pendente", BlockValue::Promise(Promise::new("nowhere")));
    map.push("contenitore-vuoto", BlockValue::List(Vec::new()));
    map.push("solo-null", BlockValue::Null);
    let f = map.flatten().unwrap();
    for (id, contributions) in f.entries() {
        assert!(!contributions.is_empty(), "the id `{id}` has an empty contribution list");
    }
    assert_eq!(get(&f, "solo-null"), None);
    assert_eq!(get(&f, "contenitore-vuoto"), Some(&[BlockValue::List(Vec::new())][..]));
}

#[test]
fn a_chain_that_runs_into_a_cycle_reports_the_whole_path() {
    let map = map_of(vec![("a", promise("b")), ("b", promise("c")), ("c", promise("b"))]);
    assert_eq!(
        map.flatten().unwrap_err(),
        PromiseError::Circular { chain: vec!["a".into(), "b".into(), "c".into(), "b".into()] }
    );
}

#[test]
fn the_chain_starts_at_the_smallest_id_that_leads_into_a_cycle() {
    let map = map_of(vec![("a", BlockValue::Int(1)), ("c", promise("b")), ("b", promise("c"))]);
    assert_eq!(
        map.flatten().unwrap_err(),
        PromiseError::Circular { chain: vec!["b".into(), "c".into(), "b".into()] }
    );
}

#[test]
fn the_walk_goes_on_through_the_first_promise_that_leads_into_a_cycle() {
    let map = map_of(vec![
        ("a", promise("x")),
        ("a", promise("c")),
        ("a", promise("b")),
        ("x", BlockValue::Int(1)),
        ("b", promise("a")),
        ("c", promise("d")),
        ("d", promise("c")),
    ]);
    assert_eq!(
        map.flatten().unwrap_err(),
        PromiseError::Circular { chain: vec!["a".into(), "c".into(), "d".into(), "c".into()] }
    );
}

#[test]
fn the_reported_walk_does_not_depend_on_the_order_ids_were_inserted() {
    let forward = map_of(vec![("a", promise("b")), ("b", promise("c")), ("c", promise("a")), ("z", promise("a"))]);
    let backward = map_of(vec![("z", promise("a")), ("c", promise("a")), ("b", promise("c")), ("a", promise("b"))]);
    let expected = PromiseError::Circular { chain: vec!["a".into(), "b".into(), "c".into(), "a".into()] };
    assert_eq!(forward.flatten().unwrap_err(), expected);
    assert_eq!(backward.flatten().unwrap_err(), expected);
}
