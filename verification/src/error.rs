//! The error of this library.

use vstd::prelude::*;
use vstd::string::*;
use crate::document::{error_message, error_text};

verus! {

/// An error met while a document was parsed or changed.
#[derive(Debug)]
pub struct TomlPatchError {
    message: String,
}

impl TomlPatchError {
    /// What went wrong.
    pub closed spec fn message(&self) -> Seq<char> {
        self.message@
    }

    /// The error as a line of text: the message behind a fixed prefix.
    pub fn to_string(&self) -> (r: String)
        ensures
            r@ == "TOML Patch Error: "@ + self.message(),
    {
        let mut text = "TOML Patch Error: ".to_string();
        text.append(self.message.as_str());
        text
    }
}

impl From<toml_edit::TomlError> for TomlPatchError {
    /// Keeps the text of the parser's error as the message.
    fn from(error: toml_edit::TomlError) -> (r: Self)
        ensures
            r.message() == error_text(error)@,
    {
        TomlPatchError { message: error_message(&error) }
    }
}

impl vstd::std_specs::convert::FromSpecImpl<toml_edit::TomlError> for TomlPatchError {
    open spec fn obeys_from_spec() -> bool {
        true
    }

    closed spec fn from_spec(error: toml_edit::TomlError) -> Self {
        TomlPatchError { message: error_text(error) }
    }
}

} // verus!
