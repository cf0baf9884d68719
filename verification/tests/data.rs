use freeports::classes::value::{BlockValue, BlockValueError};
use freeports::page::PageError;
use freeports::pipeline::data::{PipeError, PromiseEntries};
use freeports::promise_resolution::PromiseMap;

fn missing(field: &str) -> BlockValueError {
    BlockValueError::MissingField { field: field.to_string() }
}

fn text(s: &str) -> BlockValue {
    BlockValue::Str(s.to_string())
}

fn entries_of(pairs: Vec<(&str, BlockValue)>) -> PromiseEntries {
    let mut entries = PromiseEntries::new();
    for (id, value) in pairs {
        entries.push(id, value);
    }
    entries
}

#[test]
fn only_a_page_parse_failure_is_absorbed_by_the_algorithm() {
    let page_fail =
        PipeError::page_parse("p", PageError::ParseFail { message: "no table".to_string() });
    assert!(page_fail.is_page_failure());

    for other in [
        PipeError::extraction("p", "m"),
        PipeError::cast("p", "f", "m"),
        PipeError::author("pl", "p", "m"),
        PipeError::value("p", missing("f")),
    ] {
        assert!(!other.is_page_failure(), "{other:?} must not be absorbed");
    }
}

#[test]
fn every_variant_names_the_pipe_that_produced_it() {
    let errors = [
        PipeError::page_parse("a", PageError::ParseFail { message: String::new() }),
        PipeError::extraction("a", "m"),
        PipeError::cast("a", "f", "m"),
        PipeError::author("pl", "a", "m"),
        PipeError::value("a", missing("f")),
    ];
    for err in errors {
        assert_eq!(err.pipe(), "a");
    }
}

#[test]
fn a_page_parse_failure_quotes_the_underlying_message() {
    let err = PipeError::page_parse(
        "extract",
        PageError::ParseFail { message: "no table".to_string() },
    );
    assert_eq!(err.to_string(), "pipe `extract` could not parse the page: no table");
}

#[test]
fn an_extraction_failure_names_pipe_and_reason() {
    assert_eq!(
        PipeError::extraction("extract", "fund not found").to_string(),
        "pipe `extract` failed to extract: fund not found"
    );
}

#[test]
fn a_cast_failure_names_the_field() {
    assert_eq!(
        PipeError::cast("deser", "market_value", "not a number").to_string(),
        "pipe `deser` could not cast field `market_value`: not a number"
    );
}

#[test]
fn an_author_failure_names_both_pipeline_and_pipe() {
    assert_eq!(
        PipeError::author("investments", "custom_extract", "KeyError: 'x'").to_string(),
        "author pipe `custom_extract` of pipeline `investments` failed: KeyError: 'x'"
    );
}

#[test]
fn a_value_failure_forwards_the_block_value_message() {
    let err = PipeError::value("deser", missing("fund"));
    assert_eq!(err.to_string(), "pipe `deser`: missing field 'fund'");
}

#[test]
fn a_line_parse_failure_is_a_page_failure_too() {
    let err = PipeError::page_parse("p", PageError::LineParseFail { message: "bad".to_string() });
    assert!(err.is_page_failure());
    assert_eq!(err.to_string(), "pipe `p` could not parse the page: bad");
}

#[test]
fn keeps_the_order_in_which_the_pipe_produced_them() {
    let entries = entries_of(vec![("id", text("first")), ("id", text("second"))]);
    let values: Vec<&BlockValue> = entries.entries().iter().map(|(_, v)| v).collect();
    assert_eq!(values, vec![&text("first"), &text("second")]);
}

#[test]
fn merging_appends_every_contribution_under_its_id() {
    let entries = entries_of(vec![
        ("a", BlockValue::Int(1)),
        ("b", BlockValue::Int(2)),
        ("a", BlockValue::Int(3)),
    ]);
    let mut map = PromiseMap::new();
    entries.merge_into(&mut map);

    assert_eq!(map.get("a"), Some(&vec![BlockValue::Int(1), BlockValue::Int(3)]));
    assert_eq!(map.get("b"), Some(&vec![BlockValue::Int(2)]));
}

#[test]
fn merging_twice_accumulates_rather_than_replacing() {
    let entries = entries_of(vec![("a", BlockValue::Int(1))]);
    let mut map = PromiseMap::new();
    entries.merge_into(&mut map);
    entries.merge_into(&mut map);
    assert_eq!(map.get("a").map(|v| v.len()), Some(2));
}

#[test]
fn an_empty_set_of_entries_leaves_the_map_untouched() {
    let mut map = PromiseMap::new();
    PromiseEntries::new().merge_into(&mut map);
    assert!(map.is_empty());
    assert!(PromiseEntries::new().is_empty());
    assert_eq!(PromiseEntries::new().len(), 0);
}
