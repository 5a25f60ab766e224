//! Looking up and changing items in a document.

use vstd::prelude::*;
use vstd::slice::slice_subrange;
use toml_edit::{DocumentMut, Item, Table, Value};
use crate::document::{
    child_mut, doc_as_item_mut, doc_as_table_mut, doc_root, item_as_table_mut, item_kind,
    item_node, new_table, remove_child, table_get, table_get_mut, table_insert, table_item,
    table_is_implicit, table_node, table_set_dotted, table_set_implicit, value_item, value_node,
};
use crate::laws::{
    lemma_deleted_unresolved, lemma_nested_inserted_resolves, lemma_resolve_replaced,
    lemma_updated_well_formed, lemma_value_created_resolves,
};
use crate::tree::{
    lemma_descended_is_table, lemma_descended_push, lemma_grafted_is_table, lemma_grafted_push,
    lemma_inserted_with_child, lemma_replaced_at_push, lemma_replaced_at_same,
    lemma_replaced_keeps_kind, lemma_resolve_none_extends, lemma_resolve_push, fits, ItemKind,
    Node,
};

verus! {

/// What an update carries, as a shape: the value to set, or nothing for a
/// deletion.
pub open spec fn payload_node(value: Option<Value>) -> Option<Node> {
    match value {
        Some(v) => Some(value_node(v)),
        None => None,
    }
}

/// Walks from the root along `path_parts` and hands out the item found
/// there. Nothing is created on the way: where a segment is missing, or the
/// item reached cannot be searched by key, the result is `None` and the
/// document is as before. The empty path leads to the root item.
#[verifier::loop_isolation(false)]
pub fn get_item_at_path_mut<'a>(doc: &'a mut DocumentMut, path_parts: &[String]) -> (r: Option<
    &'a mut Item,
>)
    ensures
        match r {
            Some(item) => doc_root(*old(doc)).resolve(path_parts.deep_view()) == Some(
                item_node(*item),
            ) && doc_root(*final(doc)) == doc_root(*old(doc)).replaced_at(
                path_parts.deep_view(),
                item_node(*final(item)),
            ) && (*final(item) == *item ==> *final(doc) == *old(doc)),
            None => doc_root(*old(doc)).resolve(path_parts.deep_view()) is None && *final(doc)
                == *old(doc),
        },
{
    let ghost root = doc_root(*doc);
    let ghost end = doc_root(*final(doc));
    let ghost untouched = *final(doc) == *doc;
    let ghost path = path_parts.deep_view();
    let mut current_item: &mut Item = doc_as_item_mut(doc);
    let mut i: usize = 0;
    proof {
        assert(path.take(0) =~= Seq::<Seq<char>>::empty());
    }
    while i < path_parts.len()
        invariant
            i <= path_parts.len(),
            path == path_parts.deep_view(),
            root.resolve(path.take(i as int)) == Some(item_node(*current_item)),
            end == root.replaced_at(path.take(i as int), item_node(*final(current_item))),
            *final(current_item) == *current_item ==> untouched,
        decreases path_parts.len() - i,
    {
        let ghost key = path[i as int];
        proof {
            assert(path.take(i as int + 1) =~= path.take(i as int).push(key));
            lemma_resolve_push(root, path.take(i as int), key);
        }
        match child_mut(current_item, path_parts[i].as_str()) {
            Some(next_item) => {
                proof {
                    lemma_replaced_at_push(
                        root,
                        path.take(i as int),
                        key,
                        item_node(*final(next_item)),
                    );
                }
                current_item = next_item;
            },
            None => {
                proof {
                    lemma_replaced_at_same(root, path.take(i as int));
                    lemma_resolve_none_extends(root, path, i as int + 1);
                }
                return None;
            },
        }
        i += 1;
    }
    proof {
        assert(path.take(i as int) =~= path);
    }
    Some(current_item)
}

/// Puts `to_set` under `key` into the table that `parents` lead to from the
/// root. Each segment of `parents` that holds no table gets a new implicit
/// one, in the place of what was there or at the end of its parent.
#[verifier::loop_isolation(false)]
pub fn simple_table_insertion(doc: &mut DocumentMut, parents: &[String], key: &str, to_set: Value)
    requires
        doc_root(*old(doc)) is Table,
    ensures
        doc_root(*final(doc)) == doc_root(*old(doc)).nested_inserted(
            parents.deep_view(),
            key@,
            value_node(to_set),
        ),
        doc_root(*final(doc)).resolve(parents.deep_view().push(key@)) == Some(value_node(to_set)),
        doc_root(*final(doc)) is Table,
{
    let ghost root = doc_root(*doc);
    let ghost end = doc_root(*final(doc));
    let ghost path = parents.deep_view();
    let item_to_set = value_item(to_set);
    proof {
        lemma_nested_inserted_resolves(root, path, key@, value_node(to_set));
    }
    let mut current_table: &mut Table = doc_as_table_mut(doc);
    let mut i: usize = 0;
    proof {
        assert(path.take(0) =~= Seq::<Seq<char>>::empty());
    }
    while i < parents.len()
        invariant
            i <= parents.len(),
            table_node(*current_table) == root.descended(path.take(i as int)),
            end == root.grafted(path.take(i as int), table_node(*final(current_table))),
        decreases parents.len() - i,
    {
        let part = parents[i].as_str();
        let ghost here = table_node(*current_table);
        let ghost prefix = path.take(i as int);
        proof {
            assert(path.take(i as int + 1) =~= prefix.push(part@));
            lemma_descended_is_table(root, prefix);
            lemma_descended_push(root, prefix, part@);
        }
        let holds_table = match table_get(current_table, part) {
            Some(item) => match item_kind(item) {
                ItemKind::Table => true,
                _ => false,
            },
            None => false,
        };
        if !holds_table {
            let mut new_table = new_table();
            table_set_implicit(&mut new_table, true);
            table_insert(current_table, part, table_item(new_table));
        }
        let ghost filled = table_node(*current_table);
        let next_item = table_get_mut(current_table, part).unwrap();
        let next_table = item_as_table_mut(next_item).unwrap();
        proof {
            let next = table_node(*final(next_table));
            if !holds_table {
                lemma_inserted_with_child(here, part@, Node::empty_table(true, false), next);
            } else {
                assert(filled.with_child(part@, next) == here.inserted(part@, next));
            }
            lemma_grafted_push(root, prefix, part@, next);
        }
        current_table = next_table;
        i += 1;
    }
    proof {
        assert(path.take(i as int) =~= path);
        lemma_descended_is_table(root, path);
    }
    table_insert(current_table, key, item_to_set);
    proof {
        lemma_grafted_is_table(root, path, root.descended(path).inserted(key@, value_node(to_set)));
    }
}

/// Takes the entry at `path_parts` out of its parent, a table or an inline
/// table. Where the parent is missing, cannot be searched by key or has no
/// such entry, there is nothing to take out and the document stays as it
/// is; so it does for the empty path. Afterwards nothing is found at the
/// path.
pub fn delete_item_at_path(doc: &mut DocumentMut, path_parts: &[String])
    ensures
        path_parts@.len() == 0 ==> *final(doc) == *old(doc),
        path_parts@.len() > 0 ==> doc_root(*final(doc)) == doc_root(*old(doc)).deleted(
            path_parts.deep_view(),
        ),
        path_parts@.len() > 0 ==> doc_root(*final(doc)).resolve(path_parts.deep_view()) is None,
        path_parts@.len() > 0 && doc_root(*old(doc)).nothing_to_delete(path_parts.deep_view())
            ==> *final(doc) == *old(doc),
        doc_root(*old(doc)) is Table ==> doc_root(*final(doc)) is Table,
{
    if path_parts.len() == 0 {
        return ;
    }
    let ghost root = doc_root(*doc);
    let ghost path = path_parts.deep_view();
    let last: usize = path_parts.len() - 1;
    let parent_parts = slice_subrange(path_parts, 0, last);
    proof {
        assert(parent_parts.deep_view() =~= path.drop_last());
        lemma_deleted_unresolved(root, path);
    }
    match get_item_at_path_mut(doc, parent_parts) {
        Some(parent_item) => {
            remove_child(parent_item, path_parts[last].as_str());
            proof {
                let parent = root.resolve(path.drop_last()).unwrap();
                if path.len() > 1 {
                    lemma_replaced_keeps_kind(root, path.drop_last(), parent.removed(path.last()));
                }
            }
        },
        None => {},
    }
}

/// Creates `value` at `path_parts`, where nothing is found at that path.
///
/// A path of one segment goes into the root table. A path of two segments,
/// and a longer one whose parent is a table or a value, is created by
/// nested insertion. Otherwise the parent is missing, the "no item" marker
/// or an array of tables: where the grandparent is an explicit table, the
/// value is attached to it as a dotted key, and nested insertion is the
/// fallback.
fn insert_missing_value(doc: &mut DocumentMut, path_parts: &[String], value: Value)
    requires
        path_parts@.len() > 0,
        doc_root(*old(doc)) is Table,
    ensures
        doc_root(*final(doc)) == doc_root(*old(doc)).value_created(
            path_parts.deep_view(),
            value_node(value),
        ),
        doc_root(*final(doc)).resolve(path_parts.deep_view()) == Some(value_node(value)),
        doc_root(*final(doc)) is Table,
{
    let ghost root = doc_root(*doc);
    let ghost path = path_parts.deep_view();
    let count: usize = path_parts.len();
    let key = path_parts[count - 1].as_str();
    let parents = slice_subrange(path_parts, 0, count - 1);
    proof {
        assert(parents.deep_view() =~= path.drop_last());
        assert(path.drop_last().push(key@) =~= path);
    }
    if count == 1 {
        simple_table_insertion(doc, parents, key, value);
        return ;
    }
    let parent_hosts = match get_item_at_path_mut(doc, parents) {
        Some(item) => match item_kind(item) {
            ItemKind::Value => true,
            ItemKind::Table => true,
            _ => false,
        },
        None => false,
    };
    proof {
        if root.resolve(path.drop_last()) is Some {
            lemma_replaced_at_same(root, path.drop_last());
        }
    }
    if parent_hosts || count == 2 {
        simple_table_insertion(doc, parents, key, value);
        return ;
    }
    let grandparents = slice_subrange(path_parts, 0, count - 2);
    let parent = path_parts[count - 2].as_str();
    proof {
        assert(grandparents.deep_view() =~= path.drop_last().drop_last());
        assert(parent@ == path.drop_last().last());
    }
    match get_item_at_path_mut(doc, grandparents) {
        Some(item) => {
            match item_as_table_mut(item) {
                Some(table) => {
                    if table_is_implicit(table) {
                        proof {
                            lemma_replaced_at_same(root, path.drop_last().drop_last());
                        }
                        simple_table_insertion(doc, parents, key, value);
                    } else {
                        let item_to_set = value_item(value);
                        proof {
                            lemma_value_created_resolves(root, path, value_node(value));
                        }
                        let mut new_table = new_table();
                        table_set_dotted(&mut new_table, true);
                        table_insert(&mut new_table, key, item_to_set);
                        table_insert(table, parent, table_item(new_table));
                    }
                },
                None => {
                    proof {
                        lemma_replaced_at_same(root, path.drop_last().drop_last());
                    }
                    simple_table_insertion(doc, parents, key, value);
                },
            }
        },
        None => {
            simple_table_insertion(doc, parents, key, value);
        },
    }
}

/// Applies one update to the document.
///
/// With a value, the item at `path_parts` decides: a value is overwritten
/// in place; a table or array of tables is taken out of its parent, and the
/// value is then created as where nothing is found; where nothing is found
/// the value is created, with the tables that it needs; the "no item"
/// marker is left alone. Afterwards the value is found at the path, unless
/// the marker stood there. Without a value the entry at `path_parts` is
/// deleted, and nothing is found at the path afterwards. The empty path is
/// refused and leaves the document alone.
pub fn apply_single_update_to_doc(
    doc: &mut DocumentMut,
    path_parts: &[String],
    value_to_insert: Option<Value>,
) -> (r: Result<(), String>)
    requires
        doc_root(*old(doc)) is Table,
    ensures
        path_parts@.len() == 0 ==> r is Err && r->Err_0@ == "Cannot apply update with an empty path"@
            && *final(doc) == *old(doc),
        path_parts@.len() > 0 ==> r is Ok && doc_root(*final(doc)) == doc_root(*old(doc)).updated(
            path_parts.deep_view(),
            payload_node(value_to_insert),
        ),
        path_parts@.len() > 0 && doc_root(*old(doc)).leaves_alone(
            path_parts.deep_view(),
            payload_node(value_to_insert),
        ) ==> *final(doc) == *old(doc),
        path_parts@.len() > 0 ==> doc_root(*final(doc)).resolve(path_parts.deep_view()) == (
        match value_to_insert {
            Some(value) => if doc_root(*old(doc)).resolve(path_parts.deep_view()) == Some(
                Node::Absent,
            ) {
                Some(Node::Absent)
            } else {
                Some(value_node(value))
            },
            None => None,
        }),
        doc_root(*final(doc)) is Table,
        doc_root(*old(doc)).well_formed() && fits(payload_node(value_to_insert)) ==> doc_root(
            *final(doc),
        ).well_formed(),
{
    if path_parts.len() == 0 {
        return Err("Cannot apply update with an empty path".to_string());
    }
    let ghost root = doc_root(*doc);
    let ghost path = path_parts.deep_view();
    proof {
        if root.well_formed() && fits(payload_node(value_to_insert)) {
            lemma_updated_well_formed(root, path, payload_node(value_to_insert));
        }
    }
    match value_to_insert {
        Some(value) => {
            match get_item_at_path_mut(doc, path_parts) {
                Some(item) => {
                    match item_kind(item) {
                        ItemKind::Value => {
                            *item = value_item(value);
                            proof {
                                lemma_replaced_keeps_kind(root, path, value_node(value));
                                lemma_resolve_replaced(root, path, value_node(value));
                            }
                        },
                        ItemKind::Absent => {
                            proof {
                                lemma_replaced_at_same(root, path);
                            }
                        },
                        ItemKind::Table | ItemKind::ArrayOfTables => {
                            proof {
                                lemma_replaced_at_same(root, path);
                            }
                            delete_item_at_path(doc, path_parts);
                            insert_missing_value(doc, path_parts, value);
                        },
                    }
                },
                None => {
                    insert_missing_value(doc, path_parts, value);
                },
            }
        },
        None => {
            delete_item_at_path(doc, path_parts);
        },
    }
    Ok(())
}

} // verus!
