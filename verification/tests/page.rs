use freeports::page::{page_position, DocumentId, FormatName, PageError};
use std::collections::HashSet;

#[test]
fn a_document_id_round_trips_through_its_accessor() {
    assert_eq!(DocumentId::new("report-2023").as_str(), "report-2023");
}

#[test]
fn a_document_id_displays_as_its_bare_string() {
    assert_eq!(DocumentId::new("a/b/c.pdf").to_string(), "a/b/c.pdf");
}

#[test]
fn a_document_id_is_built_from_both_str_and_string() {
    let owned = "x".to_string();
    assert_eq!(DocumentId::new("x"), DocumentId::new(owned.as_str()));
}

#[test]
fn document_ids_order_and_hash_by_their_string() {
    let mut ids = vec![DocumentId::new("b"), DocumentId::new("a")];
    ids.sort();
    assert_eq!(ids, vec![DocumentId::new("a"), DocumentId::new("b")]);

    let set: HashSet<DocumentId> = [DocumentId::new("a"), DocumentId::new("a")].into_iter().collect();
    assert_eq!(set.len(), 1);
}

#[test]
fn a_format_name_round_trips_and_displays() {
    assert_eq!(FormatName::new("EURIZON-EN23").as_str(), "EURIZON-EN23");
    assert_eq!(FormatName::new("EURIZON-EN23").to_string(), "EURIZON-EN23");
}

#[test]
fn a_format_name_is_built_from_both_str_and_string() {
    let owned = "f".to_string();
    assert_eq!(FormatName::new("f"), FormatName::new(owned.as_str()));
}

#[test]
fn a_parse_failure_displays_its_bare_message() {
    let err = PageError::ParseFail { message: "no table found".to_string() };
    assert_eq!(err.to_string(), "no table found");
}

#[test]
fn a_line_parse_failure_displays_its_bare_message() {
    let err = PageError::LineParseFail { message: "bad span".to_string() };
    assert_eq!(err.to_string(), "bad span");
}

#[test]
fn the_two_variants_are_distinguishable() {
    assert_ne!(
        PageError::ParseFail { message: "x".to_string() },
        PageError::LineParseFail { message: "x".to_string() }
    );
}

#[test]
fn a_page_error_exposes_its_message() {
    assert_eq!(PageError::ParseFail { message: "m".to_string() }.message(), "m");
    assert_eq!(PageError::LineParseFail { message: "n".to_string() }.message(), "n");
}

#[test]
fn identifiers_clone_to_equal_values() {
    let id = DocumentId::new("doc");
    assert_eq!(id.clone(), id);
    let format = FormatName::new("FMT");
    assert_eq!(format.clone(), format);
    assert_ne!(DocumentId::new("a"), DocumentId::new("b"));
}

#[test]
fn a_page_is_found_by_its_number_not_its_position() {
    let pages = vec![(3u32, "third"), (7u32, "seventh"), (4u32, "fourth")];
    assert_eq!(page_position(&pages, 7), Some(1));
    assert_eq!(page_position(&pages, 4), Some(2));
    assert_eq!(page_position(&pages, 1), None);
    assert_eq!(page_position(&Vec::<(u32, ())>::new(), 1), None);
    let repeated = vec![(2u32, 'a'), (2u32, 'b')];
    assert_eq!(page_position(&repeated, 2), Some(0));
}
