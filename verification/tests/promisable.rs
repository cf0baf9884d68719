use freeports::classes::value::{BlockValue, BlockValueError};
use freeports::promisable::{fulfill_promises, Fulfilled, PromisableError, PromisableFields, Promised};
use freeports::promise::{Promise, PromiseError};
use freeports::promise_resolution::{FlatPromiseMap, PromiseMap};

/// A test entity with two promisable fields and one that is never promised.
#[derive(Debug, Clone, PartialEq, Eq)]
struct Investment {
    fund: Promised<String>,
    quantity: Promised<i64>,
    note: String,
}

impl Investment {
    fn new(fund: Promised<String>, quantity: Promised<i64>) -> Self {
        Investment { fund, quantity, note: "fissa".into() }
    }

    fn resolved(fund: &str, quantity: i64) -> Self {
        Investment::new(Promised::Resolved(fund.into()), Promised::Resolved(quantity))
    }
}

impl PromisableFields for Investment {
    fn pending(&self) -> Vec<(&'static str, Promise)> {
        let mut out = Vec::new();
        if let Some(p) = self.fund.pending() {
            out.push(("fund", p.clone()));
        }
        if let Some(p) = self.quantity.pending() {
            out.push(("quantity", p.clone()));
        }
        out
    }

    fn resolve_field(&mut self, field: &'static str, value: BlockValue) -> Result<(), BlockValueError> {
        match field {
            "fund" => self.fund = Promised::Resolved(value.str_or_fail(field)?.to_string()),
            "quantity" => self.quantity = Promised::Resolved(value.int_or_fail(field)?),
            other => return Err(BlockValueError::MissingField { field: other.to_string() }),
        }
        Ok(())
    }

    fn duplicate(&self) -> Self {
        self.clone()
    }
}

/// A flattened map holding exactly these contributions, repeated keys accumulating.
fn flat_map(pairs: Vec<(&str, BlockValue)>) -> FlatPromiseMap {
    let mut map = PromiseMap::new();
    map.merge(pairs.into_iter().map(|(k, v)| (k.to_string(), v)).collect());
    map.flatten().unwrap()
}

fn pending(raw: &str) -> Promised<String> {
    Promised::Pending(Promise::new(raw))
}

fn pending_i64(raw: &str) -> Promised<i64> {
    Promised::Pending(Promise::new(raw))
}

fn text(s: &str) -> BlockValue {
    BlockValue::Str(s.to_string())
}

fn expansions(outcome: Fulfilled<Investment>) -> Vec<Investment> {
    match outcome {
        Fulfilled::Expanded(v) => v,
        other => panic!("expected an expansion, found {other:?}"),
    }
}

#[test]
fn distinguishes_resolved_from_pending() {
    let resolved: Promised<i64> = Promised::Resolved(3);
    assert!(resolved.is_resolved());
    assert!(!resolved.is_pending());
    assert_eq!(resolved.resolved(), Some(&3));
    assert_eq!(resolved.pending(), None);

    let pending_field = pending_i64("x!");
    assert!(pending_field.is_pending());
    assert!(!pending_field.is_resolved());
    assert_eq!(pending_field.resolved(), None);
    assert_eq!(pending_field.pending(), Some(&Promise::new("x!")));
}

#[test]
fn into_resolved_consumes_the_field() {
    assert_eq!(Promised::Resolved("x".to_string()).into_resolved(), Some("x".to_string()));
    assert_eq!(pending("x").into_resolved(), None);
}

#[test]
fn map_transforms_only_the_resolved_value() {
    assert_eq!(Promised::Resolved(2_i64).map(|v| v * 2), Promised::Resolved(4));
    assert_eq!(pending_i64("x").map(|v| v * 2), Promised::Pending(Promise::new("x")));
}

#[test]
fn is_built_from_a_promise() {
    let field: Promised<i64> = Promised::from_promise(Promise::new("x[]"));
    assert_eq!(field, Promised::Pending(Promise::new("x[]")));
}

#[test]
fn an_already_resolved_entity_stays_in_place_and_intact() {
    let mut entity = Investment::resolved("Acme", 10);
    let before = entity.clone();
    assert_eq!(fulfill_promises(&mut entity, &FlatPromiseMap::new()).unwrap(), Fulfilled::InPlace);
    assert_eq!(entity, before);
}

#[test]
fn resolves_a_promised_field() {
    let mut entity = Investment::new(pending("fund"), Promised::Resolved(10));
    let map = flat_map(vec![("fund", text("Acme"))]);
    assert_eq!(fulfill_promises(&mut entity, &map).unwrap(), Fulfilled::InPlace);
    assert_eq!(entity.fund, Promised::Resolved("Acme".into()));
}

#[test]
fn resolves_multiple_fields_in_the_same_pass() {
    let mut entity = Investment::new(pending("fund"), pending_i64("qty"));
    let map = flat_map(vec![("fund", text("Acme")), ("qty", BlockValue::Int(7))]);
    assert_eq!(fulfill_promises(&mut entity, &map).unwrap(), Fulfilled::InPlace);
    assert_eq!(entity, Investment::resolved("Acme", 7));
}

#[test]
fn does_not_touch_unpromised_fields() {
    let mut entity = Investment::new(pending("fund"), Promised::Resolved(10));
    let map = flat_map(vec![("fund", text("Acme"))]);
    fulfill_promises(&mut entity, &map).unwrap();
    assert_eq!(entity.note, "fissa");
    assert_eq!(entity.quantity, Promised::Resolved(10));
}

#[test]
fn on_several_contributions_takes_the_last_value() {
    let mut entity = Investment::new(pending("fund"), Promised::Resolved(1));
    let map = flat_map(vec![("fund", text("Vecchio")), ("fund", text("Nuovo"))]);
    fulfill_promises(&mut entity, &map).unwrap();
    assert_eq!(entity.fund, Promised::Resolved("Nuovo".into()));
}

#[test]
fn non_strict_makes_the_entity_disappear() {
    let mut entity = Investment::new(pending("assente"), Promised::Resolved(1));
    assert_eq!(fulfill_promises(&mut entity, &FlatPromiseMap::new()).unwrap(), Fulfilled::Dropped);
}

#[test]
fn strict_is_an_error() {
    let mut entity = Investment::new(pending("assente!"), Promised::Resolved(1));
    assert_eq!(
        fulfill_promises(&mut entity, &FlatPromiseMap::new()).unwrap_err(),
        PromisableError::Promise(PromiseError::Unresolved { id: "assente".into() })
    );
}

#[test]
fn a_promise_surviving_flattening_behaves_like_a_missing_id() {
    let map = flat_map(vec![("fund", BlockValue::Promise(Promise::new("nowhere")))]);
    let mut non_strict = Investment::new(pending("fund"), Promised::Resolved(1));
    assert_eq!(fulfill_promises(&mut non_strict, &map).unwrap(), Fulfilled::Dropped);
    let mut strict = Investment::new(pending("fund!"), Promised::Resolved(1));
    assert!(fulfill_promises(&mut strict, &map).is_err());
}

#[test]
fn a_null_value_counts_as_missing() {
    let map = flat_map(vec![("fund", BlockValue::Null)]);
    let mut entity = Investment::new(pending("fund"), Promised::Resolved(1));
    assert_eq!(fulfill_promises(&mut entity, &map).unwrap(), Fulfilled::Dropped);
}

#[test]
fn an_unresolvable_non_strict_multiple_makes_the_entity_disappear() {
    let mut entity = Investment::new(pending("assente[]"), Promised::Resolved(1));
    assert_eq!(fulfill_promises(&mut entity, &FlatPromiseMap::new()).unwrap(), Fulfilled::Dropped);
}

#[test]
fn an_unresolvable_strict_multiple_is_an_error() {
    let mut entity = Investment::new(pending("assente[]!"), Promised::Resolved(1));
    assert!(fulfill_promises(&mut entity, &FlatPromiseMap::new()).is_err());
}

#[test]
fn an_unresolvable_normal_field_prevents_the_expansion() {
    let mut entity = Investment::new(pending("assente"), pending_i64("qty[]"));
    let map = flat_map(vec![("qty", BlockValue::Int(1)), ("qty", BlockValue::Int(2))]);
    assert_eq!(fulfill_promises(&mut entity, &map).unwrap(), Fulfilled::Dropped);
}

#[test]
fn one_copy_per_value() {
    let mut entity = Investment::new(pending("fund[]"), Promised::Resolved(1));
    let map = flat_map(vec![("fund", text("A")), ("fund", text("B")), ("fund", text("C"))]);
    let copies = expansions(fulfill_promises(&mut entity, &map).unwrap());
    let names: Vec<&str> = copies.iter().filter_map(|c| c.fund.resolved()).map(String::as_str).collect();
    assert_eq!(names, vec!["A", "B", "C"]);
}

#[test]
fn a_single_value_still_produces_an_expansion() {
    let mut entity = Investment::new(pending("fund[]"), Promised::Resolved(1));
    let map = flat_map(vec![("fund", text("A"))]);
    let copies = expansions(fulfill_promises(&mut entity, &map).unwrap());
    assert_eq!(copies, vec![Investment::resolved("A", 1)]);
}

#[test]
fn two_multiple_fields_give_the_cartesian_product() {
    let mut entity = Investment::new(pending("fund[]"), pending_i64("qty[]"));
    let map = flat_map(vec![
        ("fund", text("A")),
        ("fund", text("B")),
        ("qty", BlockValue::Int(1)),
        ("qty", BlockValue::Int(2)),
        ("qty", BlockValue::Int(3)),
    ]);
    let copies = expansions(fulfill_promises(&mut entity, &map).unwrap());
    assert_eq!(copies.len(), 6);
    let pairs: Vec<(&str, i64)> = copies
        .iter()
        .filter_map(|c| Some((c.fund.resolved()?.as_str(), *c.quantity.resolved()?)))
        .collect();
    assert_eq!(pairs, vec![("A", 1), ("A", 2), ("A", 3), ("B", 1), ("B", 2), ("B", 3)]);
}

#[test]
fn the_copies_already_carry_the_fields_resolved_in_the_first_phase() {
    let mut entity = Investment::new(pending("fund"), pending_i64("qty[]"));
    let map = flat_map(vec![("fund", text("Acme")), ("qty", BlockValue::Int(1)), ("qty", BlockValue::Int(2))]);
    let copies = expansions(fulfill_promises(&mut entity, &map).unwrap());
    assert_eq!(copies, vec![Investment::resolved("Acme", 1), Investment::resolved("Acme", 2)]);
}

#[test]
fn a_multiple_on_a_scalar_value_produces_a_single_copy() {
    let mut entity = Investment::new(Promised::Resolved("Acme".into()), pending_i64("qty[]"));
    let map = flat_map(vec![("qty", BlockValue::Int(9))]);
    assert_eq!(expansions(fulfill_promises(&mut entity, &map).unwrap()), vec![Investment::resolved("Acme", 9)]);
}

#[test]
fn the_copies_are_independent_from_each_other() {
    let mut entity = Investment::new(pending("fund[]"), Promised::Resolved(1));
    let map = flat_map(vec![("fund", text("A")), ("fund", text("B"))]);
    let mut copies = expansions(fulfill_promises(&mut entity, &map).unwrap());
    copies[0].note = "cambiata".into();
    assert_eq!(copies[1].note, "fissa");
}

#[test]
fn a_value_of_the_wrong_type_names_the_field() {
    let mut entity = Investment::new(pending("fund"), Promised::Resolved(1));
    let map = flat_map(vec![("fund", BlockValue::Int(3))]);
    let err = fulfill_promises(&mut entity, &map).unwrap_err();
    assert_eq!(
        err,
        PromisableError::Field {
            field: "fund",
            source: BlockValueError::TypeMismatch { field: "fund".into(), expected: "str", found: "int" },
        }
    );
    assert_eq!(err.to_string(), "field 'fund': field 'fund' expected str, found int");
}

#[test]
fn a_type_error_during_expansion_stops_everything() {
    let mut entity = Investment::new(Promised::Resolved("Acme".into()), pending_i64("qty[]"));
    let map = flat_map(vec![("qty", BlockValue::Int(1)), ("qty", text("non un numero")), ("qty", BlockValue::Int(3))]);
    let err = fulfill_promises(&mut entity, &map).unwrap_err();
    assert_eq!(
        err,
        PromisableError::Field {
            field: "quantity",
            source: BlockValueError::TypeMismatch { field: "quantity".into(), expected: "int", found: "str" },
        }
    );
}
