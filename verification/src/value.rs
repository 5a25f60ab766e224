//! Reading the value of an update from its text.

use vstd::prelude::*;
use toml_edit::Value;
use crate::apply::payload_node;
use crate::document::{boolean_value, float_bits, float_value, integer_value, string_value};
use crate::text::{decimal_i64, parse_integer, same_text, trim_str, trimmed};
use crate::tree::{Leaf, Node};

verus! {

/// What the text of a value stands for. With the white space at its ends
/// left out, `true` and `false` are booleans, `$undefined` asks for a
/// deletion, a decimal number is an integer and any other number a float.
/// Everything else is a string, white space included.
pub open spec fn parsed_value(raw: Seq<char>) -> Option<Node> {
    let text = trimmed(raw);
    if text == "true"@ {
        Some(Node::Value(Leaf::Boolean(true)))
    } else if text == "false"@ {
        Some(Node::Value(Leaf::Boolean(false)))
    } else if text == "$undefined"@ {
        None
    } else if decimal_i64(text) is Some {
        Some(Node::Value(Leaf::Integer(decimal_i64(text).unwrap())))
    } else if float_bits(text) is Some {
        Some(Node::Value(Leaf::Float(float_bits(text).unwrap())))
    } else {
        Some(Node::Value(Leaf::Text(raw)))
    }
}

/// Reads the value of an update: a boolean, an integer, a float or a
/// string, or `None` for the text that asks for a deletion.
pub fn parse_value(value_str: &str) -> (r: Option<Value>)
    ensures
        payload_node(r) == parsed_value(value_str@),
{
    let trimmed_value_str = trim_str(value_str);
    if same_text(trimmed_value_str, "true") {
        Some(boolean_value(true))
    } else if same_text(trimmed_value_str, "false") {
        Some(boolean_value(false))
    } else if same_text(trimmed_value_str, "$undefined") {
        None
    } else if let Some(int_val) = parse_integer(trimmed_value_str) {
        Some(integer_value(int_val))
    } else if let Some(float_val) = float_value(trimmed_value_str) {
        Some(float_val)
    } else {
        Some(string_value(value_str.to_string()))
    }
}

} // verus!
