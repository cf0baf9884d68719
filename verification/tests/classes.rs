use freeports::classes::value::{BlockValue, BlockValueError};
use freeports::classes::{BlockType, PdfBlock, TextBlock};
use freeports::promise::Promise;
use std::collections::hash_map::DefaultHasher;
use std::hash::{Hash, Hasher};

fn hash_of<T: Hash>(t: &T) -> u64 {
    let mut h = DefaultHasher::new();
    t.hash(&mut h);
    h.finish()
}

fn metadata(pairs: &[(&str, BlockValue)]) -> Vec<(String, BlockValue)> {
    pairs.iter().map(|(k, v)| (k.to_string(), v.clone())).collect()
}

#[test]
fn the_standard_constants_carry_their_own_name() {
    assert_eq!(BlockType::fund().as_str(), "FUND");
    assert_eq!(BlockType::table_body().as_str(), "TABLE_BODY");
    assert_eq!(BlockType::investments_manager().as_str(), "INVESTMENTS_MANAGER");
}

#[test]
fn all_standard_constants_are_distinct() {
    let standard = BlockType::standard();
    let names: std::collections::BTreeSet<&str> = standard.iter().map(BlockType::as_str).collect();
    assert_eq!(names.len(), standard.len());
}

#[test]
fn constant_and_runtime_built_type_coincide() {
    let from_repo = BlockType::new(&String::from("FUND"));
    assert_eq!(from_repo, BlockType::fund());
    assert_eq!(hash_of(&from_repo), hash_of(&BlockType::fund()));
}

#[test]
fn a_type_invented_by_a_format_repo_is_legitimate() {
    let custom = BlockType::new("ANIMA_TABELLA_STRANA");
    assert_eq!(custom.as_str(), "ANIMA_TABELLA_STRANA");
    assert_ne!(custom, BlockType::table_body());
}

#[test]
fn compares_directly_with_a_string() {
    assert!(BlockType::fund() == "FUND");
    assert!(BlockType::fund() != "TABLE_BODY");
}

#[test]
fn display_and_as_str_coincide() {
    for t in BlockType::standard() {
        assert_eq!(t.to_string(), t.as_str());
    }
}

#[test]
fn keeps_type_metadata_and_content() {
    let blk = PdfBlock::new(
        BlockType::fund_name(),
        metadata(&[("page", BlockValue::Int(3))]),
        BlockValue::Str("Acme Global Fund".to_string()),
    );
    assert_eq!(blk.type_block, BlockType::fund_name());
    assert_eq!(blk.metadata_or_fail("page"), Ok(&BlockValue::Int(3)));
    assert_eq!(blk.content.as_str(), Some("Acme Global Fund"));
}

#[test]
fn bare_constructs_without_metadata() {
    let blk = PdfBlock::bare(BlockType::table_body(), BlockValue::Str("riga".to_string()));
    assert!(blk.metadata.is_empty());
    assert_eq!(blk.content.as_str(), Some("riga"));
}

#[test]
fn the_content_can_be_a_promise() {
    let blk = PdfBlock::bare(BlockType::fund_name(), BlockValue::Promise(Promise::new("fund!")));
    assert!(blk.content.is_promise());
    assert_eq!(blk.content.as_promise().map(Promise::id), Some("fund"));
}

#[test]
fn metadata_or_fail_names_the_missing_field() {
    let blk = PdfBlock::bare(BlockType::table_body(), BlockValue::Str("riga".to_string()));
    assert_eq!(
        blk.metadata_or_fail("row").unwrap_err(),
        BlockValueError::MissingField { field: "row".into() }
    );
}

#[test]
fn new_inherits_the_content_from_the_pdf_block() {
    let pdf = PdfBlock::bare(BlockType::fund_name(), BlockValue::Str("Café Fund".to_string()));
    let expected = PdfBlock::bare(BlockType::fund_name(), BlockValue::Str("Café Fund".to_string()));
    let txt = TextBlock::new(BlockType::fund(), Vec::new(), pdf);
    assert_eq!(txt.content, expected.content);
    assert_eq!(txt.pdf_block.as_deref(), Some(&expected));
}

#[test]
fn new_does_not_inherit_the_pdf_blocks_metadata() {
    let pdf = PdfBlock::new(
        BlockType::fund_name(),
        metadata(&[("page", BlockValue::Int(3))]),
        BlockValue::Str("Café Fund".to_string()),
    );
    let txt = TextBlock::new(BlockType::fund(), Vec::new(), pdf);
    assert!(txt.metadata.is_empty());
}

#[test]
fn from_content_has_no_pdf_block() {
    let txt = TextBlock::from_content(
        BlockType::management_company(),
        Vec::new(),
        BlockValue::Str("Acme SGR".to_string()),
    );
    assert!(txt.pdf_block.is_none());
    assert_eq!(txt.content.as_str(), Some("Acme SGR"));
}

#[test]
fn from_content_accepts_a_promise() {
    let txt = TextBlock::from_content(BlockType::fund(), Vec::new(), BlockValue::Promise(Promise::new("fund[]")));
    assert!(txt.content.is_promise());
    assert!(txt.content.as_promise().unwrap().multiple());
}

#[test]
fn identical_blocks_are_equal_and_hash_the_same() {
    let a = PdfBlock::new(BlockType::fund_name(), metadata(&[("p", BlockValue::Int(1))]), BlockValue::Str("x".into()));
    let b = PdfBlock::new(BlockType::fund_name(), metadata(&[("p", BlockValue::Int(1))]), BlockValue::Str("x".into()));
    assert_eq!(a, b);
    assert_eq!(hash_of(&a), hash_of(&b));
}

#[test]
fn type_metadata_and_content_all_three_matter() {
    let base = PdfBlock::new(BlockType::fund_name(), metadata(&[("p", BlockValue::Int(1))]), BlockValue::Str("x".into()));
    assert_ne!(base, PdfBlock::new(BlockType::table_body(), base.metadata.clone(), BlockValue::Str("x".into())));
    assert_ne!(base, PdfBlock::new(BlockType::fund_name(), Vec::new(), BlockValue::Str("x".into())));
    assert_ne!(base, PdfBlock::new(BlockType::fund_name(), base.metadata.clone(), BlockValue::Str("y".into())));
}

#[test]
fn a_text_block_with_and_without_pdf_block_are_not_equal() {
    let pdf = PdfBlock::bare(BlockType::fund_name(), BlockValue::Str("x".into()));
    let with_pdf = TextBlock::new(BlockType::fund(), Vec::new(), pdf);
    let without_pdf = TextBlock::from_content(BlockType::fund(), Vec::new(), BlockValue::Str("x".into()));
    assert_eq!(with_pdf.content, without_pdf.content);
    assert_ne!(with_pdf, without_pdf);
}

#[test]
fn the_first_metadata_entry_with_a_key_is_the_one_read() {
    let blk = PdfBlock::new(
        BlockType::fund_name(),
        metadata(&[("p", BlockValue::Int(1)), ("p", BlockValue::Int(2))]),
        BlockValue::Null,
    );
    assert_eq!(blk.metadata_or_fail("p"), Ok(&BlockValue::Int(1)));
}
