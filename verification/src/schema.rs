//! The text form of a block and of a signed block: which fields a record may
//! hold, under which names, and the strict rule by which a record is read.
//!
//! A record is read strictly: a field that the schema does not name is an
//! error, and so is a field that comes twice, and a required field that does
//! not come at all.

use vstd::prelude::*;
use vstd::string::StringExecFns;

verus! {

/// Why a record does not fit its schema.
#[derive(Debug, Clone, Copy, PartialEq, Eq, Structural)]
pub enum SchemaError {
    /// The field at this place has a name that the schema does not know.
    UnknownField { index: usize },
    /// The field at this place has come before.
    DuplicateField { index: usize },
    /// A required field has not come.
    MissingField,
}

/// The fields of a block in text form.
#[derive(Debug, Clone, Copy, PartialEq, Eq, Structural)]
pub enum BlockField {
    /// `header`, required.
    Header,
    /// `extrinsics`, required.
    Extrinsics,
}

/// The fields of a signed block in text form.
#[derive(Debug, Clone, Copy, PartialEq, Eq, Structural)]
pub enum SignedBlockField {
    /// `block`, required.
    Block,
    /// `justifications`; a record without it has no proof attached.
    Justifications,
}

/// The field of a block that goes by `name`.
pub open spec fn block_field_named(name: Seq<char>) -> Option<BlockField> {
    if name == "header"@ {
        Some(BlockField::Header)
    } else if name == "extrinsics"@ {
        Some(BlockField::Extrinsics)
    } else {
        None
    }
}

/// The field of a signed block that goes by `name`.
pub open spec fn signed_block_field_named(name: Seq<char>) -> Option<SignedBlockField> {
    if name == "block"@ {
        Some(SignedBlockField::Block)
    } else if name == "justifications"@ {
        Some(SignedBlockField::Justifications)
    } else {
        None
    }
}

/// Whether the name at place `i` has come at an earlier place.
pub open spec fn repeats(names: Seq<Seq<char>>, i: int) -> bool {
    exists|j: int| 0 <= j < i && #[trigger] names[j] == names[i]
}

/// Whether each of the first `n` names is the name of a field of a block,
/// and comes for the first time.
pub open spec fn block_fields_fit(names: Seq<Seq<char>>, n: int) -> bool {
    forall|i: int|
        0 <= i < n ==> block_field_named(#[trigger] names[i]) is Some && !repeats(names, i)
}

/// Whether each of the first `n` names is the name of a field of a signed
/// block, and comes for the first time.
pub open spec fn signed_block_fields_fit(names: Seq<Seq<char>>, n: int) -> bool {
    forall|i: int|
        0 <= i < n ==> signed_block_field_named(#[trigger] names[i]) is Some && !repeats(
            names,
            i,
        )
}

/// Whether a record with these field names can be read as a block: it holds
/// `header` and `extrinsics`, each once, and nothing else.
pub open spec fn is_block_record(names: Seq<Seq<char>>) -> bool {
    &&& block_fields_fit(names, names.len() as int)
    &&& names.contains("header"@)
    &&& names.contains("extrinsics"@)
}

/// Whether a record with these field names can be read as a signed block:
/// it holds `block` once, `justifications` once or not at all, and nothing
/// else.
pub open spec fn is_signed_block_record(names: Seq<Seq<char>>) -> bool {
    &&& signed_block_fields_fit(names, names.len() as int)
    &&& names.contains("block"@)
}

/// No two fields of a record go by the same name.
pub proof fn lemma_field_names_differ()
    ensures
        "header"@ != "extrinsics"@,
        "block"@ != "justifications"@,
{
    reveal_strlit("header");
    reveal_strlit("extrinsics");
    reveal_strlit("block");
    reveal_strlit("justifications");
    assert("header"@.len() == 6 && "extrinsics"@.len() == 10);
    assert("block"@.len() == 5 && "justifications"@.len() == 14);
}

/// Whether the two texts are the same.
fn same_text(a: &str, b: &str) -> (same: bool)
    ensures
        same == (a@ == b@),
{
    String::from_str(a) == String::from_str(b)
}

/// The name of a field of a block.
pub fn block_field_name(field: BlockField) -> (name: &'static str)
    ensures
        block_field_named(name@) == Some(field),
{
    proof {
        lemma_field_names_differ();
    }
    match field {
        BlockField::Header => "header",
        BlockField::Extrinsics => "extrinsics",
    }
}

/// The name of a field of a signed block.
pub fn signed_block_field_name(field: SignedBlockField) -> (name: &'static str)
    ensures
        signed_block_field_named(name@) == Some(field),
{
    proof {
        lemma_field_names_differ();
    }
    match field {
        SignedBlockField::Block => "block",
        SignedBlockField::Justifications => "justifications",
    }
}

/// The field of a block that goes by `name`, if there is one.
pub fn block_field(name: &str) -> (field: Option<BlockField>)
    ensures
        field == block_field_named(name@),
{
    if same_text(name, "header") {
        Some(BlockField::Header)
    } else if same_text(name, "extrinsics") {
        Some(BlockField::Extrinsics)
    } else {
        None
    }
}

/// The field of a signed block that goes by `name`, if there is one.
pub fn signed_block_field(name: &str) -> (field: Option<SignedBlockField>)
    ensures
        field == signed_block_field_named(name@),
{
    if same_text(name, "block") {
        Some(SignedBlockField::Block)
    } else if same_text(name, "justifications") {
        Some(SignedBlockField::Justifications)
    } else {
        None
    }
}

/// Whether the record with these field names, in this order, can be read as
/// a block. The first name that the schema does not know, or that has come
/// before, decides; after that, a missing field.
pub fn check_block_fields(names: &Vec<String>) -> (r: Result<(), SchemaError>)
    ensures
        r is Ok <==> is_block_record(names.deep_view()),
        match r {
            Ok(()) => true,
            Err(SchemaError::UnknownField { index }) => {
                &&& index < names.len()
                &&& block_fields_fit(names.deep_view(), index as int)
                &&& block_field_named(names.deep_view()[index as int]) is None
            },
            Err(SchemaError::DuplicateField { index }) => {
                &&& index < names.len()
                &&& block_fields_fit(names.deep_view(), index as int)
                &&& block_field_named(names.deep_view()[index as int]) is Some
                &&& repeats(names.deep_view(), index as int)
            },
            Err(SchemaError::MissingField) => block_fields_fit(
                names.deep_view(),
                names.len() as int,
            ),
        },
{
    let ghost texts = names.deep_view();
    let mut header = false;
    let mut extrinsics = false;
    let mut i: usize = 0;
    while i < names.len()
        invariant
            i <= names.len(),
            texts == names.deep_view(),
            block_fields_fit(texts, i as int),
            header <==> exists|j: int| 0 <= j < i && #[trigger] texts[j] == "header"@,
            extrinsics <==> exists|j: int| 0 <= j < i && #[trigger] texts[j] == "extrinsics"@,
        decreases names.len() - i,
    {
        proof {
            lemma_field_names_differ();
            assert(texts[i as int] == names@[i as int]@);
        }
        match block_field(names[i].as_str()) {
            None => {
                return Err(SchemaError::UnknownField { index: i });
            },
            Some(BlockField::Header) => {
                if header {
                    return Err(SchemaError::DuplicateField { index: i });
                }
                header = true;
            },
            Some(BlockField::Extrinsics) => {
                if extrinsics {
                    return Err(SchemaError::DuplicateField { index: i });
                }
                extrinsics = true;
            },
        }
        i = i + 1;
    }
    if header && extrinsics {
        Ok(())
    } else {
        Err(SchemaError::MissingField)
    }
}

/// Whether the record with these field names, in this order, can be read as
/// a signed block. The first name that the schema does not know, or that has
/// come before, decides; after that, a missing `block`.
pub fn check_signed_block_fields(names: &Vec<String>) -> (r: Result<(), SchemaError>)
    ensures
        r is Ok <==> is_signed_block_record(names.deep_view()),
        match r {
            Ok(()) => true,
            Err(SchemaError::UnknownField { index }) => {
                &&& index < names.len()
                &&& signed_block_fields_fit(names.deep_view(), index as int)
                &&& signed_block_field_named(names.deep_view()[index as int]) is None
            },
            Err(SchemaError::DuplicateField { index }) => {
                &&& index < names.len()
                &&& signed_block_fields_fit(names.deep_view(), index as int)
                &&& signed_block_field_named(names.deep_view()[index as int]) is Some
                &&& repeats(names.deep_view(), index as int)
            },
            Err(SchemaError::MissingField) => signed_block_fields_fit(
                names.deep_view(),
                names.len() as int,
            ),
        },
{
    let ghost texts = names.deep_view();
    let mut block = false;
    let mut justifications = false;
    let mut i: usize = 0;
    while i < names.len()
        invariant
            i <= names.len(),
            texts == names.deep_view(),
            signed_block_fields_fit(texts, i as int),
            block <==> exists|j: int| 0 <= j < i && #[trigger] texts[j] == "block"@,
            justifications <==> exists|j: int|
                0 <= j < i && #[trigger] texts[j] == "justifications"@,
        decreases names.len() - i,
    {
        proof {
            lemma_field_names_differ();
            assert(texts[i as int] == names@[i as int]@);
        }
        match signed_block_field(names[i].as_str()) {
            None => {
                return Err(SchemaError::UnknownField { index: i });
            },
            Some(SignedBlockField::Block) => {
                if block {
                    return Err(SchemaError::DuplicateField { index: i });
                }
                block = true;
            },
            Some(SignedBlockField::Justifications) => {
                if justifications {
                    return Err(SchemaError::DuplicateField { index: i });
                }
                justifications = true;
            },
        }
        i = i + 1;
    }
    if block {
        Ok(())
    } else {
        Err(SchemaError::MissingField)
    }
}

/// A record that holds a field which the schema does not know cannot be
/// read, whatever else it holds: not as a block, and not as a signed block.
pub proof fn lemma_unknown_field_is_refused(names: Seq<Seq<char>>, i: int)
    requires
        0 <= i < names.len(),
    ensures
        block_field_named(names[i]) is None ==> !is_block_record(names),
        signed_block_field_named(names[i]) is None ==> !is_signed_block_record(names),
{
}

} // verus!
