//! The boundary to `toml_edit`.
//!
//! Everything in this file is taken on trust: the types of `toml_edit` are
//! declared, the shape of their values is given a name, and each function of
//! `toml_edit` that the patch logic calls gets a wrapper whose contract says
//! what the function does to that shape.

use vstd::prelude::*;
use std::str::FromStr;
use toml_edit::{DocumentMut, Formatted, Item, Table, Value};
use crate::tree::{ItemKind, Leaf, Node};

verus! {

#[verifier::external_type_specification]
#[verifier::external_body]
pub struct ExDocumentMut(DocumentMut);

#[verifier::external_type_specification]
#[verifier::external_body]
pub struct ExItem(Item);

#[verifier::external_type_specification]
#[verifier::external_body]
pub struct ExTable(Table);

#[verifier::external_type_specification]
#[verifier::external_body]
pub struct ExValue(Value);

#[verifier::external_type_specification]
#[verifier::external_body]
pub struct ExTomlError(toml_edit::TomlError);

/// The shape of the root item of a document.
pub uninterp spec fn doc_root(doc: DocumentMut) -> Node;

/// The shape of an item.
pub uninterp spec fn item_node(item: Item) -> Node;

/// The shape of a table.
pub uninterp spec fn table_node(table: Table) -> Node;

/// The shape of a value.
pub uninterp spec fn value_node(value: Value) -> Node;

/// What `toml_edit` reads from a text: a document, or the reason why the
/// text is not one.
pub uninterp spec fn parsed_document(text: Seq<char>) -> Result<DocumentMut, toml_edit::TomlError>;

/// The text that `toml_edit` writes for a document.
pub uninterp spec fn rendered(doc: DocumentMut) -> Seq<char>;

/// The text that `toml_edit` writes for a parse error.
pub uninterp spec fn error_text(error: toml_edit::TomlError) -> String;

/// The bit pattern of the 64-bit float that the standard library reads from
/// a text, where it reads one.
pub uninterp spec fn float_bits(text: Seq<char>) -> Option<u64>;

/// `DocumentMut::from_str`: parses a document. The same text always gives
/// the same outcome, and the root of a parsed document is a table.
#[verifier::external_body]
pub(crate) fn parse_document(text: &str) -> (r: Result<DocumentMut, toml_edit::TomlError>)
    ensures
        r == parsed_document(text@),
        r is Ok ==> doc_root(r.unwrap()) is Table,
{
    DocumentMut::from_str(text)
}

/// `DocumentMut::to_string`: writes the document out. It reads the root as
/// a table and panics where it is none, so that is asked of the caller.
#[verifier::external_body]
pub(crate) fn render_document(doc: &DocumentMut) -> (r: String)
    requires
        doc_root(*doc) is Table,
    ensures
        r@ == rendered(*doc),
{
    doc.to_string()
}

/// `TomlError::to_string`: writes the parse error out.
#[verifier::external_body]
pub(crate) fn error_message(error: &toml_edit::TomlError) -> (r: String)
    ensures
        r == error_text(*error),
{
    error.to_string()
}

/// `DocumentMut::as_item_mut`: hands out the root item. What the caller
/// leaves in it is the root of the document afterwards; a caller that
/// leaves the item as it is leaves the document as it is.
#[verifier::external_body]
pub(crate) fn doc_as_item_mut<'a>(doc: &'a mut DocumentMut) -> (r: &'a mut Item)
    ensures
        item_node(*r) == doc_root(*old(doc)),
        doc_root(*final(doc)) == item_node(*final(r)),
        *final(r) == *r ==> *final(doc) == *old(doc),
{
    doc.as_item_mut()
}

/// `DocumentMut::as_table_mut`: hands out the root table. It panics where
/// the root is no table, so that is asked of the caller.
#[verifier::external_body]
pub(crate) fn doc_as_table_mut<'a>(doc: &'a mut DocumentMut) -> (r: &'a mut Table)
    requires
        doc_root(*old(doc)) is Table,
    ensures
        table_node(*r) == doc_root(*old(doc)),
        doc_root(*final(doc)) == table_node(*final(r)),
{
    doc.as_table_mut()
}

/// Tells the four variants of `Item` apart.
#[verifier::external_body]
pub(crate) fn item_kind(item: &Item) -> (k: ItemKind)
    ensures
        k == item_node(*item).kind(),
{
    match item {
        Item::None => ItemKind::Absent,
        Item::Value(_) => ItemKind::Value,
        Item::Table(_) => ItemKind::Table,
        Item::ArrayOfTables(_) => ItemKind::ArrayOfTables,
    }
}

/// `Item::as_table_like_mut` followed by `TableLike::get_mut`: hands out the
/// child under `key` of a table or inline table. A table hides a child that
/// is the "no item" marker; an inline table does not. What the caller leaves
/// in the child takes its place, and nothing else changes.
#[verifier::external_body]
pub(crate) fn child_mut<'a>(item: &'a mut Item, key: &str) -> (r: Option<&'a mut Item>)
    ensures
        match r {
            Some(sub) => item_node(*old(item)).child(key@) == Some(item_node(*sub)) && item_node(
                *final(item),
            ) == item_node(*old(item)).with_child(key@, item_node(*final(sub))) && (*final(sub)
                == *sub ==> *final(item) == *old(item)),
            None => item_node(*old(item)).child(key@) is None && *final(item) == *old(item),
        },
{
    item.as_table_like_mut().and_then(|t| t.get_mut(key))
}

/// `Item::as_table_like_mut` followed by `TableLike::remove`: takes the
/// entry under `key` out of a table or inline table and shifts the entries
/// behind it forward. An item without such an entry stays as it is, as does
/// any item that is neither.
#[verifier::external_body]
pub(crate) fn remove_child(item: &mut Item, key: &str)
    ensures
        item_node(*final(item)) == item_node(*old(item)).removed(key@),
        !item_node(*old(item)).has_key(key@) ==> *final(item) == *old(item),
{
    item.as_table_like_mut().map(|t| t.remove(key));
}

/// `Item::as_table_mut`: hands out the table that the item holds, if it
/// holds one. What the caller leaves in the table is the item afterwards.
#[verifier::external_body]
pub(crate) fn item_as_table_mut<'a>(item: &'a mut Item) -> (r: Option<&'a mut Table>)
    ensures
        match r {
            Some(table) => item_node(*old(item)) is Table && table_node(*table) == item_node(
                *old(item),
            ) && item_node(*final(item)) == table_node(*final(table)) && (*final(table) == *table
                ==> *final(item) == *old(item)),
            None => !(item_node(*old(item)) is Table) && *final(item) == *old(item),
        },
{
    item.as_table_mut()
}

/// `Table::get`: the child under `key`, unless it is missing or the "no
/// item" marker.
#[verifier::external_body]
pub(crate) fn table_get<'a>(table: &'a Table, key: &str) -> (r: Option<&'a Item>)
    ensures
        match r {
            Some(sub) => table_node(*table).child(key@) == Some(item_node(*sub)),
            None => table_node(*table).child(key@) is None,
        },
{
    table.get(key)
}

/// `Table::get_mut`: hands out the child under `key`, unless it is missing
/// or the "no item" marker. What the caller leaves in the child takes its
/// place, and nothing else changes.
#[verifier::external_body]
pub(crate) fn table_get_mut<'a>(table: &'a mut Table, key: &str) -> (r: Option<&'a mut Item>)
    ensures
        match r {
            Some(sub) => table_node(*old(table)).child(key@) == Some(item_node(*sub))
                && table_node(*final(table)) == table_node(*old(table)).with_child(
                key@,
                item_node(*final(sub)),
            ),
            None => table_node(*old(table)).child(key@) is None && *final(table) == *old(table),
        },
{
    table.get_mut(key)
}

/// `Table::insert`: puts `item` under `key`. Where the key is there already
/// the item takes the old one's place; a new key goes to the end.
#[verifier::external_body]
pub(crate) fn table_insert(table: &mut Table, key: &str, item: Item)
    ensures
        table_node(*final(table)) == table_node(*old(table)).inserted(key@, item_node(item)),
{
    table.insert(key, item);
}

/// `Table::new`: an empty table, neither implicit nor dotted.
#[verifier::external_body]
pub(crate) fn new_table() -> (r: Table)
    ensures
        table_node(r) == Node::empty_table(false, false),
{
    Table::new()
}

/// `Table::is_implicit`: reads the flag.
#[verifier::external_body]
pub(crate) fn table_is_implicit(table: &Table) -> (r: bool)
    ensures
        r == table_node(*table)->Table_implicit,
{
    table.is_implicit()
}

/// `Table::set_implicit`: sets the flag and nothing else.
#[verifier::external_body]
pub(crate) fn table_set_implicit(table: &mut Table, implicit: bool)
    ensures
        table_node(*final(table)) == table_node(*old(table)).with_implicit(implicit),
{
    table.set_implicit(implicit);
}

/// `Table::set_dotted`: sets the flag and nothing else.
#[verifier::external_body]
pub(crate) fn table_set_dotted(table: &mut Table, dotted: bool)
    ensures
        table_node(*final(table)) == table_node(*old(table)).with_dotted(dotted),
{
    table.set_dotted(dotted);
}

/// `Item::Table`: the item that holds the table.
#[verifier::external_body]
pub(crate) fn table_item(table: Table) -> (r: Item)
    ensures
        item_node(r) == table_node(table),
{
    Item::Table(table)
}

/// `Item::Value`: the item that holds the value. It is of the value kind.
#[verifier::external_body]
pub(crate) fn value_item(value: Value) -> (r: Item)
    ensures
        item_node(r) == value_node(value),
        item_node(r).is_value(),
{
    Item::Value(value)
}

/// `Value::from` on a `bool`: a boolean value.
#[verifier::external_body]
pub(crate) fn boolean_value(b: bool) -> (r: Value)
    ensures
        value_node(r) == Node::Value(Leaf::Boolean(b)),
{
    Value::from(b)
}

/// `Value::from` on an `i64`: an integer value.
#[verifier::external_body]
pub(crate) fn integer_value(i: i64) -> (r: Value)
    ensures
        value_node(r) == Node::Value(Leaf::Integer(i)),
{
    Value::from(i)
}

/// `Value::from` on a `String`: a string value with that text.
#[verifier::external_body]
pub(crate) fn string_value(text: String) -> (r: Value)
    ensures
        value_node(r) == Node::Value(Leaf::Text(text@)),
{
    Value::from(text)
}

/// `str::parse` for a 64-bit float, and `Value::Float` over
/// `Formatted::new` on the number, which is what `Value::from` does with a
/// float: a float value where the text is a float, nothing where it is not.
#[verifier::external_body]
pub(crate) fn float_value(text: &str) -> (r: Option<Value>)
    ensures
        match r {
            Some(value) => float_bits(text@) is Some && value_node(value) == Node::Value(
                Leaf::Float(float_bits(text@).unwrap()),
            ),
            None => float_bits(text@) is None,
        },
{
    text.parse().ok().map(|number| Value::Float(Formatted::new(number)))
}

} // verus!
