use generic_block::schema::{
    block_field, block_field_name, check_block_fields, check_signed_block_fields,
    signed_block_field, signed_block_field_name, BlockField, SchemaError, SignedBlockField,
};

fn names(list: &[&str]) -> Vec<String> {
    list.iter().map(|s| s.to_string()).collect()
}

fn field_names(document: &str) -> Vec<String> {
    let value: serde_json::Value = serde_json::from_str(document).unwrap();
    value.as_object().unwrap().keys().cloned().collect()
}

#[test]
fn block_fields_go_by_their_names() {
    assert_eq!(block_field("header"), Some(BlockField::Header));
    assert_eq!(block_field("extrinsics"), Some(BlockField::Extrinsics));
    assert_eq!(block_field_name(BlockField::Header), "header");
    assert_eq!(block_field_name(BlockField::Extrinsics), "extrinsics");
}

#[test]
fn signed_block_fields_go_by_their_names() {
    assert_eq!(signed_block_field("block"), Some(SignedBlockField::Block));
    assert_eq!(signed_block_field("justifications"), Some(SignedBlockField::Justifications));
    assert_eq!(signed_block_field_name(SignedBlockField::Block), "block");
    assert_eq!(signed_block_field_name(SignedBlockField::Justifications), "justifications");
}

#[test]
fn other_names_are_no_fields() {
    for name in ["", "Header", "HEADER", "header ", "headers", "extrinsic", "block", "x"] {
        assert_eq!(block_field(name), None, "{:?}", name);
    }
    for name in ["", "Block", "blocks", "justification", "Justifications", "header", "é"] {
        assert_eq!(signed_block_field(name), None, "{:?}", name);
    }
}

#[test]
fn complete_records_fit() {
    assert_eq!(check_block_fields(&names(&["header", "extrinsics"])), Ok(()));
    assert_eq!(check_block_fields(&names(&["extrinsics", "header"])), Ok(()));
    assert_eq!(check_signed_block_fields(&names(&["block", "justifications"])), Ok(()));
    assert_eq!(check_signed_block_fields(&names(&["justifications", "block"])), Ok(()));
    assert_eq!(check_signed_block_fields(&names(&["block"])), Ok(()));
}

#[test]
fn unknown_field_is_refused_where_it_stands() {
    assert_eq!(
        check_signed_block_fields(&names(&["block", "justifications", "extra"])),
        Err(SchemaError::UnknownField { index: 2 })
    );
    assert_eq!(
        check_signed_block_fields(&names(&["extra", "block"])),
        Err(SchemaError::UnknownField { index: 0 })
    );
    assert_eq!(
        check_block_fields(&names(&["header", "digest", "extrinsics"])),
        Err(SchemaError::UnknownField { index: 1 })
    );
    assert_eq!(
        check_block_fields(&names(&["header", "extrinsics", "justifications"])),
        Err(SchemaError::UnknownField { index: 2 })
    );
}

#[test]
fn repeated_field_is_refused_where_it_repeats() {
    assert_eq!(
        check_block_fields(&names(&["header", "header", "extrinsics"])),
        Err(SchemaError::DuplicateField { index: 1 })
    );
    assert_eq!(
        check_signed_block_fields(&names(&["justifications", "block", "justifications"])),
        Err(SchemaError::DuplicateField { index: 2 })
    );
}

#[test]
fn first_fault_decides() {
    assert_eq!(
        check_block_fields(&names(&["header", "header", "bogus"])),
        Err(SchemaError::DuplicateField { index: 1 })
    );
    assert_eq!(
        check_block_fields(&names(&["bogus", "header", "header"])),
        Err(SchemaError::UnknownField { index: 0 })
    );
    assert_eq!(
        check_signed_block_fields(&names(&["justifications", "bogus"])),
        Err(SchemaError::UnknownField { index: 1 })
    );
}

#[test]
fn missing_required_field_is_refused() {
    assert_eq!(check_block_fields(&names(&[])), Err(SchemaError::MissingField));
    assert_eq!(check_block_fields(&names(&["header"])), Err(SchemaError::MissingField));
    assert_eq!(check_block_fields(&names(&["extrinsics"])), Err(SchemaError::MissingField));
    assert_eq!(check_signed_block_fields(&names(&[])), Err(SchemaError::MissingField));
    assert_eq!(
        check_signed_block_fields(&names(&["justifications"])),
        Err(SchemaError::MissingField)
    );
}

#[test]
fn signed_block_document_with_extra_field_is_refused() {
    let document = r#"{
        "block": { "header": { "parentHash": "0x00", "number": 1 }, "extrinsics": [] },
        "justifications": null,
        "finalized": true
    }"#;
    let fields = field_names(document);
    assert!(matches!(
        check_signed_block_fields(&fields),
        Err(SchemaError::UnknownField { index }) if fields[index] == "finalized"
    ));
}

#[test]
fn signed_block_document_without_extra_field_is_accepted() {
    let document = r#"{
        "block": { "header": { "parentHash": "0x00", "number": 1 }, "extrinsics": [] },
        "justifications": null
    }"#;
    assert_eq!(check_signed_block_fields(&field_names(document)), Ok(()));
    let value: serde_json::Value = serde_json::from_str(document).unwrap();
    let inner = value.get("block").unwrap().as_object().unwrap();
    let inner: Vec<String> = inner.keys().cloned().collect();
    assert_eq!(check_block_fields(&inner), Ok(()));
}
