//! Why building a tree failed.

use vstd::prelude::*;

use crate::path::{hex_literal, hex_literal_of};

verus! {

#[derive(Debug)]
pub enum WadTreeError {
    /// A component of the chunk's resolved path is empty.
    InvalidItemName { chunk_path: u64 },
    /// A file cannot stand where a folder of the same name already does.
    ItemCreationFailure { item_path: String },
    /// A folder cannot be made where a file of the same name already stands.
    ExistingFile { file_path: String },
}

impl WadTreeError {
    /// A human-readable description of the error.
    pub fn message(&self) -> (r: String)
        ensures
            r@ == match self {
                WadTreeError::InvalidItemName { chunk_path } => "invalid item name (chunk_path: "@
                    + hex_literal_of(*chunk_path) + ")"@,
                WadTreeError::ItemCreationFailure { item_path } => "failed to create item (item_path: "@
                    + item_path@ + ")"@,
                WadTreeError::ExistingFile { file_path } => "existing file: (file_path: "@
                    + file_path@ + ")"@,
            },
    {
        match self {
            WadTreeError::InvalidItemName { chunk_path } => describe_invalid_name(*chunk_path),
            WadTreeError::ItemCreationFailure { item_path } => {
                let mut s = String::from_str("failed to create item (item_path: ");
                s.append(item_path.as_str());
                s.append(")");
                s
            },
            WadTreeError::ExistingFile { file_path } => {
                let mut s = String::from_str("existing file: (file_path: ");
                s.append(file_path.as_str());
                s.append(")");
                s
            },
        }
    }
}

fn describe_invalid_name(chunk_path: u64) -> (r: String)
    ensures
        r@ == "invalid item name (chunk_path: "@ + hex_literal_of(chunk_path) + ")"@,
{
    let mut s = String::from_str("invalid item name (chunk_path: ");
    let hex = hex_literal(chunk_path);
    s.append(hex.as_str());
    s.append(")");
    s
}

} // verus!
