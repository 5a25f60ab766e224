//! What holds of planning and of updates, whatever the batch and the
//! document.

use vstd::prelude::*;
use vstd::seq_lib::*;
use crate::document::{doc_root, parsed_document};
use crate::patch::{all_leave_alone, echo_result, is_patch_result, updated_all};
use crate::plan::{
    application_order, goes_before, inserted_in_order, lemma_application_order_members,
    lemma_inserted_in_order_members, list_items, planned, Update,
};
use crate::tree::{
    lemma_descended_is_table, lemma_replaced_at_same, lemma_replaced_keeps_kind,
    lemma_resolve_push, fits, ItemKind, Node,
};

verus! {

/// Each update of the list goes before those behind it.
pub open spec fn in_order(updates: Seq<Update>) -> bool {
    forall|i: int, j: int| 0 <= i < j < updates.len() ==> goes_before(updates[i], updates[j])
}

/// Putting an update in order keeps a list in order, and adds the update to
/// what the list holds.
pub proof fn lemma_inserted_in_order(sorted: Seq<Update>, u: Update)
    requires
        in_order(sorted),
    ensures
        in_order(inserted_in_order(sorted, u)),
        inserted_in_order(sorted, u).to_multiset() == sorted.to_multiset().insert(u),
    decreases sorted.len(),
{
    broadcast use group_to_multiset_ensures;

    let out = inserted_in_order(sorted, u);
    lemma_inserted_in_order_members(sorted, u);
    if sorted.len() == 0 {
        assert(sorted =~= Seq::<Update>::empty());
        assert(out =~= Seq::<Update>::empty().push(u));
    } else if goes_before(sorted.last(), u) {
        assert forall|i: int, j: int| 0 <= i < j < out.len() implies goes_before(out[i], out[j]) by {
            if j == sorted.len() {
                if i < sorted.len() - 1 {
                    assert(goes_before(sorted[i], sorted[sorted.len() - 1]));
                }
            }
        }
    } else {
        let shorter = inserted_in_order(sorted.drop_last(), u);
        assert(in_order(sorted.drop_last()));
        lemma_inserted_in_order(sorted.drop_last(), u);
        lemma_inserted_in_order_members(sorted.drop_last(), u);
        assert forall|i: int, j: int| 0 <= i < j < out.len() implies goes_before(out[i], out[j]) by {
            if j == sorted.len() {
                let x = shorter[i];
                if x != u {
                    let k = choose|k: int| 0 <= k < sorted.drop_last().len() && sorted.drop_last()[k] == x;
                    assert(goes_before(sorted[k], sorted[sorted.len() - 1]));
                }
            } else {
                assert(goes_before(shorter[i], shorter[j]));
            }
        }
        assert(sorted.drop_last().push(sorted.last()) =~= sorted);
        assert(out.to_multiset() =~= sorted.to_multiset().insert(u));
    }
}

/// Sorting: the application order holds the updates of the batch, each as
/// often as the batch does, and each goes before those behind it.
pub proof fn lemma_application_order(updates: Seq<Update>)
    ensures
        in_order(application_order(updates)),
        application_order(updates).to_multiset() == updates.to_multiset(),
        application_order(updates).len() == updates.len(),
    decreases updates.len(),
{
    broadcast use group_to_multiset_ensures;

    lemma_application_order_members(updates);
    if updates.len() > 0 {
        lemma_application_order(updates.drop_last());
        lemma_inserted_in_order(application_order(updates.drop_last()), updates.last());
        assert(updates.drop_last().push(updates.last()) =~= updates);
    }
}

/// Updates that are in order already stay as they are.
pub proof fn lemma_application_order_fixed(updates: Seq<Update>)
    requires
        in_order(updates),
    ensures
        application_order(updates) == updates,
    decreases updates.len(),
{
    if updates.len() > 0 {
        let front = updates.drop_last();
        assert(in_order(front));
        lemma_application_order_fixed(front);
        if front.len() > 0 {
            assert(goes_before(updates[front.len() - 1], updates[updates.len() - 1]));
        }
        assert(front.push(updates.last()) =~= updates);
    } else {
        assert(application_order(updates) =~= updates);
    }
}

/// Depth ordering: of two updates in application order the first has the
/// deeper path, or a path of the same depth and an index that is not
/// greater.
pub proof fn lemma_deeper_first(updates: Seq<Update>, i: int, j: int)
    requires
        0 <= i < j < updates.len(),
    ensures
        application_order(updates)[i].path.len() >= application_order(updates)[j].path.len(),
        application_order(updates)[i].path.len() == application_order(updates)[j].path.len()
            ==> application_order(updates)[i].index <= application_order(updates)[j].index,
{
    lemma_application_order(updates);
    assert(goes_before(application_order(updates)[i], application_order(updates)[j]));
}

/// What is put in the place of a node is found there.
pub proof fn lemma_resolve_replaced(root: Node, path: Seq<Seq<char>>, sub: Node)
    requires
        root.resolve(path) is Some,
        !(sub is Absent),
    ensures
        root.replaced_at(path, sub).resolve(path) == Some(sub),
    decreases path.len(),
{
    if path.len() > 0 {
        let c = root.child(path[0]).unwrap();
        lemma_resolve_replaced(c, path.skip(1), sub);
        let c2 = c.replaced_at(path.skip(1), sub);
        assert(!(c2 is Absent));
        assert(root.with_child(path[0], c2).child(path[0]) == Some(c2));
    }
}

/// A graft is found where it was put.
pub proof fn lemma_resolve_grafted(root: Node, parents: Seq<Seq<char>>, sub: Node)
    requires
        root is Table,
        sub is Table,
    ensures
        root.grafted(parents, sub).resolve(parents) == Some(sub),
        root.grafted(parents, sub) is Table,
    decreases parents.len(),
{
    if parents.len() > 0 {
        let inner = root.step_table(parents[0]).grafted(parents.skip(1), sub);
        lemma_resolve_grafted(root.step_table(parents[0]), parents.skip(1), sub);
        assert(root.inserted(parents[0], inner).child(parents[0]) == Some(inner));
    }
}

/// After nested creation the value is found at its path.
pub proof fn lemma_nested_inserted_resolves(
    root: Node,
    parents: Seq<Seq<char>>,
    key: Seq<char>,
    value: Node,
)
    requires
        root is Table,
        !(value is Absent),
    ensures
        root.nested_inserted(parents, key, value).resolve(parents.push(key)) == Some(value),
        root.nested_inserted(parents, key, value) is Table,
{
    lemma_descended_is_table(root, parents);
    let host = root.descended(parents).inserted(key, value);
    lemma_resolve_grafted(root, parents, host);
    lemma_resolve_push(root.grafted(parents, host), parents, key);
    assert(host.child(key) == Some(value));
}

/// Nested creation, step by step: with no parents the value goes into the
/// table itself; otherwise the first parent holds, in its place or at the
/// end, the table that it held or a new implicit one, after nested creation
/// along the other parents.
pub proof fn lemma_nested_inserted_steps(
    root: Node,
    parents: Seq<Seq<char>>,
    key: Seq<char>,
    value: Node,
)
    ensures
        parents.len() == 0 ==> root.nested_inserted(parents, key, value) == root.inserted(
            key,
            value,
        ),
        parents.len() > 0 ==> root.nested_inserted(parents, key, value) == root.inserted(
            parents[0],
            root.step_table(parents[0]).nested_inserted(parents.skip(1), key, value),
        ),
{
}

/// A value that was created is found at its path.
pub proof fn lemma_value_created_resolves(root: Node, path: Seq<Seq<char>>, value: Node)
    requires
        root is Table,
        path.len() > 0,
        !(value is Absent),
    ensures
        root.value_created(path, value).resolve(path) == Some(value),
        root.value_created(path, value) is Table,
{
    let parents = path.drop_last();
    let key = path.last();
    assert(parents.push(key) =~= path);
    if root.attaches_dotted(path) {
        let grandparents = parents.drop_last();
        assert(grandparents.push(parents.last()) =~= parents);
        let grand = root.resolve(grandparents).unwrap();
        let host = grand.inserted(parents.last(), Node::dotted_table(key, value));
        let after = root.replaced_at(grandparents, host);
        lemma_resolve_replaced(root, grandparents, host);
        lemma_resolve_push(after, grandparents, parents.last());
        assert(host.child(parents.last()) == Some(Node::dotted_table(key, value)));
        lemma_resolve_push(after, parents, key);
        assert(Node::dotted_table(key, value).child(key) == Some(value));
        if grandparents.len() > 0 {
            lemma_replaced_keeps_kind(root, grandparents, host);
        }
    } else {
        lemma_nested_inserted_resolves(root, parents, key, value);
    }
}

/// Taking an entry out of a table root leaves a table root.
pub proof fn lemma_deleted_is_table(root: Node, path: Seq<Seq<char>>)
    requires
        root is Table,
        path.len() > 0,
    ensures
        root.deleted(path) is Table,
{
    let parents = path.drop_last();
    if let Some(parent) = root.resolve(parents) {
        if parents.len() > 0 {
            lemma_replaced_keeps_kind(root, parents, parent.removed(path.last()));
        }
    }
}

/// After a deletion nothing is found at the path.
pub proof fn lemma_deleted_unresolved(root: Node, path: Seq<Seq<char>>)
    requires
        path.len() > 0,
    ensures
        root.deleted(path).resolve(path) is None,
{
    let parents = path.drop_last();
    let key = path.last();
    assert(parents.push(key) =~= path);
    let after = root.deleted(path);
    lemma_resolve_push(after, parents, key);
    lemma_resolve_push(root, parents, key);
    if let Some(parent) = root.resolve(parents) {
        let emptied = parent.removed(key);
        assert(emptied.child(key) is None);
        lemma_resolve_replaced_or_hidden(root, parents, emptied);
    }
}

/// The retry after a removal finds nothing: once the entry at a path was
/// taken out of its parent, setting a value there is creating it.
pub proof fn lemma_retry_creates(root: Node, path: Seq<Seq<char>>, value: Node)
    requires
        path.len() > 0,
    ensures
        root.deleted(path).value_set(path, value) == root.deleted(path).value_created(
            path,
            value,
        ),
{
    lemma_deleted_unresolved(root, path);
}

/// What is put in the place of a node is found there, unless it is the "no
/// item" marker: that may be hidden.
pub proof fn lemma_resolve_replaced_or_hidden(root: Node, path: Seq<Seq<char>>, sub: Node)
    requires
        root.resolve(path) is Some,
    ensures
        match root.replaced_at(path, sub).resolve(path) {
            Some(found) => found == sub,
            None => sub is Absent,
        },
    decreases path.len(),
{
    if path.len() > 0 {
        let c = root.child(path[0]).unwrap();
        lemma_resolve_replaced_or_hidden(c, path.skip(1), sub);
        let c2 = c.replaced_at(path.skip(1), sub);
        if path.len() > 1 {
            assert(!(c2 is Absent));
        }
        if !(c2 is Absent) {
            assert(root.with_child(path[0], c2).child(path[0]) == Some(c2));
        }
    }
}

/// After an insertion the value is found at its path, unless the "no item"
/// marker stood there and the document stayed as it was.
pub proof fn lemma_value_set_resolves(root: Node, path: Seq<Seq<char>>, value: Node)
    requires
        root is Table,
        path.len() > 0,
        value.is_value(),
        root.resolve(path) != Some(Node::Absent),
    ensures
        root.value_set(path, value).resolve(path) == Some(value),
        root.value_set(path, value) is Table,
{
    match root.resolve(path) {
        Some(target) => {
            if target.kind() == ItemKind::Value {
                lemma_resolve_replaced(root, path, value);
                lemma_replaced_keeps_kind(root, path, value);
            } else {
                lemma_deleted_is_table(root, path);
                lemma_value_created_resolves(root.deleted(path), path, value);
            }
        },
        None => {
            lemma_value_created_resolves(root, path, value);
        },
    }
}

/// An update keeps the root a table.
pub proof fn lemma_updated_is_table(root: Node, path: Seq<Seq<char>>, payload: Option<Node>)
    requires
        root is Table,
        path.len() > 0,
        payload is Some ==> payload.unwrap().is_value(),
    ensures
        root.updated(path, payload) is Table,
{
    match payload {
        Some(value) => {
            if root.resolve(path) != Some(Node::Absent) {
                lemma_value_set_resolves(root, path, value);
            }
        },
        None => {
            let parents = path.drop_last();
            if let Some(parent) = root.resolve(parents) {
                if parents.len() > 0 {
                    lemma_replaced_keeps_kind(root, parents, parent.removed(path.last()));
                }
            }
        },
    }
}

/// Applying an update a second time changes nothing: a value that was set
/// is overwritten by itself, and what was deleted is not there to delete.
pub proof fn lemma_update_twice(root: Node, path: Seq<Seq<char>>, payload: Option<Node>)
    requires
        root is Table,
        path.len() > 0,
        payload is Some ==> payload.unwrap().is_value(),
    ensures
        root.updated(path, payload).updated(path, payload) == root.updated(path, payload),
{
    let once = root.updated(path, payload);
    match payload {
        Some(value) => {
            if root.resolve(path) != Some(Node::Absent) {
                lemma_value_set_resolves(root, path, value);
                lemma_replaced_at_same(once, path);
            }
        },
        None => {
            let parents = path.drop_last();
            let key = path.last();
            if let Some(parent) = root.resolve(parents) {
                if parent.has_key(key) {
                    let emptied = parent.removed(key);
                    lemma_resolve_replaced(root, parents, emptied);
                    assert(emptied.removed(key) == emptied);
                    lemma_replaced_at_same(once, parents);
                } else {
                    lemma_replaced_at_same(root, parents);
                }
            }
        },
    }
}

/// Deleting what is not there changes nothing.
pub proof fn lemma_delete_missing(root: Node, path: Seq<Seq<char>>)
    requires
        path.len() > 0,
        root.nothing_to_delete(path),
    ensures
        root.deleted(path) == root,
{
    if let Some(parent) = root.resolve(path.drop_last()) {
        lemma_replaced_at_same(root, path.drop_last());
    }
}

/// Where a path leads somewhere, so does each of its prefixes, and a
/// proper prefix leads to a table or an inline table.
pub proof fn lemma_resolve_prefix(root: Node, path: Seq<Seq<char>>, n: int)
    requires
        0 <= n <= path.len(),
        root.resolve(path) is Some,
    ensures
        root.resolve(path.take(n)) is Some,
        n < path.len() ==> root.resolve(path.take(n)).unwrap().is_table_like(),
    decreases path.len() - n,
{
    if n == path.len() {
        assert(path.take(n) =~= path);
    } else {
        assert(path.take(n + 1) =~= path.take(n).push(path[n]));
        lemma_resolve_prefix(root, path, n + 1);
        lemma_resolve_push(root, path.take(n), path[n]);
    }
}

/// A path that runs into a node without children leads nowhere.
pub proof fn lemma_resolve_blocked(root: Node, path: Seq<Seq<char>>, n: int)
    requires
        0 <= n < path.len(),
        match root.resolve(path.take(n)) {
            Some(node) => !node.is_table_like(),
            None => true,
        },
    ensures
        root.resolve(path) is None,
{
    if root.resolve(path) is Some {
        lemma_resolve_prefix(root, path, n);
    }
}

/// A shallower value displaces the deeper one: once a value was set at a
/// path and then a scalar at a proper prefix of it, the scalar is found at
/// the prefix and nothing at the longer path.
pub proof fn lemma_shallower_displaces(
    root: Node,
    deep: Seq<Seq<char>>,
    n: int,
    first: Node,
    second: Node,
)
    requires
        root is Table,
        0 < n < deep.len(),
        first.is_value(),
        second is Value,
        root.resolve(deep) != Some(Node::Absent),
    ensures
        root.value_set(deep, first).value_set(deep.take(n), second).resolve(deep.take(n)) == Some(
            second,
        ),
        root.value_set(deep, first).value_set(deep.take(n), second).resolve(deep) is None,
{
    let between = root.value_set(deep, first);
    lemma_value_set_resolves(root, deep, first);
    lemma_resolve_prefix(between, deep, n);
    lemma_value_set_resolves(between, deep.take(n), second);
    lemma_resolve_blocked(between.value_set(deep.take(n), second), deep, n);
}

/// An update has taken effect in a tree: its value is found at its path,
/// or there is no entry left for its deletion to take out.
pub open spec fn settled(tree: Node, u: Update) -> bool {
    match u.payload {
        Some(value) => value.is_value() && tree.resolve(u.path) == Some(value),
        None => u.path.len() > 0 && tree.nothing_to_delete(u.path),
    }
}

/// An update that has taken effect changes nothing when it is applied.
pub proof fn lemma_settled_update(tree: Node, u: Update)
    requires
        settled(tree, u),
    ensures
        tree.updated(u.path, u.payload) == tree,
{
    match u.payload {
        Some(value) => {
            lemma_replaced_at_same(tree, u.path);
        },
        None => {
            lemma_delete_missing(tree, u.path);
        },
    }
}

/// After one update the update has taken effect, unless the "no item"
/// marker stood at its path.
pub proof fn lemma_updated_settled(root: Node, u: Update)
    requires
        root is Table,
        u.path.len() > 0,
        u.payload is Some ==> u.payload.unwrap().is_value(),
        root.resolve(u.path) != Some(Node::Absent),
    ensures
        settled(root.updated(u.path, u.payload), u),
{
    match u.payload {
        Some(value) => {
            lemma_value_set_resolves(root, u.path, value);
        },
        None => {
            let parents = u.path.drop_last();
            if let Some(parent) = root.resolve(parents) {
                if parent.has_key(u.path.last()) {
                    lemma_resolve_replaced(root, parents, parent.removed(u.path.last()));
                } else {
                    lemma_replaced_at_same(root, parents);
                }
            }
        },
    }
}

/// Applying a batch a second time changes nothing, where each of its
/// updates has taken effect in the tree that the first run leaves. That
/// need not be: a later update of the batch may undo an earlier one.
pub proof fn lemma_batch_twice(root: Node, updates: Seq<Update>)
    requires
        forall|i: int|
            0 <= i < updates.len() ==> settled(updated_all(root, updates), #[trigger] updates[i]),
    ensures
        updated_all(updated_all(root, updates), updates) == updated_all(root, updates),
{
    lemma_settled_batch(updated_all(root, updates), updates);
}

/// A batch of updates that have all taken effect changes nothing.
pub proof fn lemma_settled_batch(tree: Node, updates: Seq<Update>)
    requires
        forall|i: int| 0 <= i < updates.len() ==> settled(tree, #[trigger] updates[i]),
    ensures
        updated_all(tree, updates) == tree,
    decreases updates.len(),
{
    if updates.len() > 0 {
        assert forall|i: int| 0 <= i < updates.drop_last().len() implies settled(
            tree,
            #[trigger] updates.drop_last()[i],
        ) by {
            assert(updates.drop_last()[i] == updates[i]);
        }
        lemma_settled_batch(tree, updates.drop_last());
        assert(settled(tree, updates[updates.len() - 1]));
        lemma_settled_update(tree, updates.last());
    }
}

/// A patch that finds nothing to do gives the document back as writing it
/// back does: where the text is a document, the batch can be planned, and
/// each update is a deletion with nothing to take out, the result of the
/// patch is the result of the echo.
pub proof fn lemma_patch_nothing_to_do(
    toml: Seq<char>,
    paths: Seq<char>,
    values: Seq<char>,
    patched: Result<Seq<char>, Seq<char>>,
)
    requires
        is_patch_result(toml, paths, values, patched),
        parsed_document(toml) is Ok,
        planned(paths, values) is Ok,
        all_leave_alone(doc_root(parsed_document(toml)->Ok_0), planned(paths, values)->Ok_0),
    ensures
        patched == echo_result(toml),
{
}

/// A text that is no document is refused by both entry points, and a text
/// that is one is written back.
pub proof fn lemma_malformed_is_refused(
    toml: Seq<char>,
    paths: Seq<char>,
    values: Seq<char>,
    patched: Result<Seq<char>, Seq<char>>,
)
    requires
        is_patch_result(toml, paths, values, patched),
    ensures
        echo_result(toml) is Err <==> parsed_document(toml) is Err,
        parsed_document(toml) is Err ==> patched is Err,
{
}

/// A batch whose lists differ in length is refused, whatever the document.
pub proof fn lemma_count_mismatch_is_refused(
    toml: Seq<char>,
    paths: Seq<char>,
    values: Seq<char>,
    patched: Result<Seq<char>, Seq<char>>,
)
    requires
        is_patch_result(toml, paths, values, patched),
        list_items(paths).len() != list_items(values).len(),
    ensures
        patched is Err,
        planned(paths, values) == Err::<Seq<Update>, Seq<char>>(
            "Number of paths must match number of values"@,
        ),
{
}

/// In a tree whose inline tables hold values only, so do those of each
/// child, and a child of an inline table is a value.
pub proof fn lemma_well_formed_child(node: Node, key: Seq<char>)
    requires
        node.well_formed(),
        node.child(key) is Some,
    ensures
        node.child(key).unwrap().well_formed(),
        node is Inline ==> node.child(key).unwrap().is_value(),
{
}

/// Exchanging a child keeps the inline tables holding values only, where
/// those of the new child do, and it is a value where the node is an inline
/// table.
pub proof fn lemma_well_formed_with_child(node: Node, key: Seq<char>, sub: Node)
    requires
        node.well_formed(),
        sub.well_formed(),
        node is Inline ==> sub.is_value(),
    ensures
        node.with_child(key, sub).well_formed(),
{
    match node {
        Node::Table { entries, .. } => {
            assert forall|k: Seq<char>| entries.insert(key, sub).contains_key(k) implies (
            #[trigger] entries.insert(key, sub)[k]).well_formed() by {
                if k != key {
                    assert(entries.contains_key(k));
                    assert(entries[k].well_formed());
                }
            }
        },
        Node::Inline { entries, .. } => {
            assert forall|k: Seq<char>| entries.insert(key, sub).contains_key(k) implies (
            #[trigger] entries.insert(key, sub)[k]).is_value() && entries.insert(
                key,
                sub,
            )[k].well_formed() by {
                if k != key {
                    assert(entries.contains_key(k));
                    assert(entries[k].well_formed());
                }
            }
        },
        _ => {},
    }
}

/// Inserting into a table keeps the inline tables holding values only.
pub proof fn lemma_well_formed_inserted(node: Node, key: Seq<char>, sub: Node)
    requires
        node.well_formed(),
        sub.well_formed(),
    ensures
        node.inserted(key, sub).well_formed(),
{
    match node {
        Node::Table { entries, .. } => {
            assert forall|k: Seq<char>| entries.insert(key, sub).contains_key(k) implies (
            #[trigger] entries.insert(key, sub)[k]).well_formed() by {
                if k != key {
                    assert(entries.contains_key(k));
                    assert(entries[k].well_formed());
                }
            }
        },
        _ => {},
    }
}

/// Taking an entry out keeps the inline tables holding values only.
pub proof fn lemma_well_formed_removed(node: Node, key: Seq<char>)
    requires
        node.well_formed(),
    ensures
        node.removed(key).well_formed(),
{
    match node {
        Node::Table { entries, .. } => {
            assert forall|k: Seq<char>| entries.remove(key).contains_key(k) implies (
            #[trigger] entries.remove(key)[k]).well_formed() by {
                assert(entries.contains_key(k));
                assert(entries[k].well_formed());
            }
        },
        Node::Inline { entries, .. } => {
            assert forall|k: Seq<char>| entries.remove(key).contains_key(k) implies (
            #[trigger] entries.remove(key)[k]).is_value() && entries.remove(
                key,
            )[k].well_formed() by {
                assert(entries.contains_key(k));
                assert(entries[k].well_formed());
            }
        },
        _ => {},
    }
}

/// In a tree whose inline tables hold values only, so do those of the node
/// that a path leads to.
pub proof fn lemma_well_formed_resolve(root: Node, path: Seq<Seq<char>>)
    requires
        root.well_formed(),
        root.resolve(path) is Some,
    ensures
        root.resolve(path).unwrap().well_formed(),
    decreases path.len(),
{
    if path.len() > 0 {
        lemma_well_formed_child(root, path[0]);
        lemma_well_formed_resolve(root.child(path[0]).unwrap(), path.skip(1));
    }
}

/// Exchanging a node keeps the inline tables holding values only, where
/// those of the new node do, and it is a value where the old one was.
pub proof fn lemma_well_formed_replaced_at(root: Node, path: Seq<Seq<char>>, sub: Node)
    requires
        root.well_formed(),
        root.resolve(path) is Some,
        sub.well_formed(),
        root.resolve(path).unwrap().is_value() ==> sub.is_value(),
    ensures
        root.replaced_at(path, sub).well_formed(),
    decreases path.len(),
{
    if path.len() > 0 {
        let c = root.child(path[0]).unwrap();
        lemma_well_formed_child(root, path[0]);
        lemma_well_formed_replaced_at(c, path.skip(1), sub);
        lemma_well_formed_with_child(root, path[0], c.replaced_at(path.skip(1), sub));
    }
}

/// Nested creation goes down into tables whose inline tables hold values
/// only.
pub proof fn lemma_well_formed_descended(root: Node, parents: Seq<Seq<char>>)
    requires
        root.well_formed(),
    ensures
        root.descended(parents).well_formed(),
    decreases parents.len(),
{
    if parents.len() > 0 {
        if root.child(parents[0]) is Some {
            lemma_well_formed_child(root, parents[0]);
        }
        lemma_well_formed_descended(root.step_table(parents[0]), parents.skip(1));
    }
}

/// A graft keeps the inline tables holding values only.
pub proof fn lemma_well_formed_grafted(root: Node, parents: Seq<Seq<char>>, sub: Node)
    requires
        root.well_formed(),
        sub.well_formed(),
    ensures
        root.grafted(parents, sub).well_formed(),
    decreases parents.len(),
{
    if parents.len() > 0 {
        if root.child(parents[0]) is Some {
            lemma_well_formed_child(root, parents[0]);
        }
        lemma_well_formed_grafted(root.step_table(parents[0]), parents.skip(1), sub);
        lemma_well_formed_inserted(
            root,
            parents[0],
            root.step_table(parents[0]).grafted(parents.skip(1), sub),
        );
    }
}

/// Creating a value keeps the inline tables holding values only.
pub proof fn lemma_well_formed_value_created(root: Node, path: Seq<Seq<char>>, value: Node)
    requires
        root.well_formed(),
        value.well_formed(),
    ensures
        root.value_created(path, value).well_formed(),
{
    let parents = path.drop_last();
    if root.attaches_dotted(path) {
        let grandparents = parents.drop_last();
        let grand = root.resolve(grandparents).unwrap();
        lemma_well_formed_resolve(root, grandparents);
        lemma_well_formed_inserted(Node::empty_table(false, true), path.last(), value);
        lemma_well_formed_inserted(grand, parents.last(), Node::dotted_table(path.last(), value));
        lemma_well_formed_replaced_at(
            root,
            grandparents,
            grand.inserted(parents.last(), Node::dotted_table(path.last(), value)),
        );
    } else {
        lemma_well_formed_descended(root, parents);
        lemma_well_formed_inserted(root.descended(parents), path.last(), value);
        lemma_well_formed_grafted(
            root,
            parents,
            root.descended(parents).inserted(path.last(), value),
        );
    }
}

/// Taking an entry out of its parent keeps the inline tables holding
/// values only.
pub proof fn lemma_well_formed_deleted(root: Node, path: Seq<Seq<char>>)
    requires
        root.well_formed(),
    ensures
        root.deleted(path).well_formed(),
{
    if let Some(parent) = root.resolve(path.drop_last()) {
        lemma_well_formed_resolve(root, path.drop_last());
        lemma_well_formed_removed(parent, path.last());
        lemma_well_formed_replaced_at(root, path.drop_last(), parent.removed(path.last()));
    }
}

/// An update never puts a table into an inline table: where the inline
/// tables of a tree hold values only, they do so after the update.
pub proof fn lemma_updated_well_formed(root: Node, path: Seq<Seq<char>>, payload: Option<Node>)
    requires
        root.well_formed(),
        fits(payload),
    ensures
        root.updated(path, payload).well_formed(),
{
    lemma_well_formed_deleted(root, path);
    match payload {
        Some(value) => {
            match root.resolve(path) {
                Some(target) => {
                    if target.kind() == ItemKind::Value {
                        lemma_well_formed_replaced_at(root, path, value);
                    } else {
                        lemma_well_formed_value_created(root.deleted(path), path, value);
                    }
                },
                None => {
                    lemma_well_formed_value_created(root, path, value);
                },
            }
        },
        None => {},
    }
}

/// A batch of updates never puts a table into an inline table.
pub proof fn lemma_updated_all_well_formed(root: Node, updates: Seq<Update>)
    requires
        root.well_formed(),
        forall|i: int| 0 <= i < updates.len() ==> fits((#[trigger] updates[i]).payload),
    ensures
        updated_all(root, updates).well_formed(),
    decreases updates.len(),
{
    if updates.len() > 0 {
        assert forall|i: int| 0 <= i < updates.drop_last().len() implies fits(
            (#[trigger] updates.drop_last()[i]).payload,
        ) by {
            assert(updates.drop_last()[i] == updates[i]);
        }
        lemma_updated_all_well_formed(root, updates.drop_last());
        assert(fits(updates[updates.len() - 1].payload));
        lemma_updated_well_formed(
            updated_all(root, updates.drop_last()),
            updates.last().path,
            updates.last().payload,
        );
    }
}

/// Dotted attachment: a value two segments below an explicit table, whose
/// parent is missing, becomes a dotted key of that table. The table gets
/// one new entry, a dotted table that holds the value and nothing else.
pub proof fn lemma_dotted_attachment(
    root: Node,
    grandparents: Seq<Seq<char>>,
    parent: Seq<char>,
    key: Seq<char>,
    value: Node,
)
    requires
        grandparents.len() > 0,
        root.resolve(grandparents) is Some,
        root.resolve(grandparents).unwrap().is_explicit_table(),
        root.resolve(grandparents).unwrap().child(parent) is None,
    ensures
        root.updated(grandparents.push(parent).push(key), Some(value)) == root.replaced_at(
            grandparents,
            root.resolve(grandparents).unwrap().inserted(parent, Node::dotted_table(key, value)),
        ),
{
    let parents = grandparents.push(parent);
    let path = parents.push(key);
    assert(path.drop_last() =~= parents);
    assert(parents.drop_last() =~= grandparents);
    lemma_resolve_push(root, grandparents, parent);
    lemma_resolve_push(root, parents, key);
}

/// No dotted attachment below an implicit table: there the value is
/// created by nested insertion, in a new implicit table.
pub proof fn lemma_nested_below_implicit(
    root: Node,
    grandparents: Seq<Seq<char>>,
    parent: Seq<char>,
    key: Seq<char>,
    value: Node,
)
    requires
        root.resolve(grandparents) is Some,
        !root.resolve(grandparents).unwrap().is_explicit_table(),
        root.resolve(grandparents).unwrap().child(parent) is None,
    ensures
        root.updated(grandparents.push(parent).push(key), Some(value)) == root.nested_inserted(
            grandparents.push(parent),
            key,
            value,
        ),
{
    let parents = grandparents.push(parent);
    let path = parents.push(key);
    assert(path.drop_last() =~= parents);
    assert(parents.drop_last() =~= grandparents);
    lemma_resolve_push(root, grandparents, parent);
    lemma_resolve_push(root, parents, key);
}

/// Setting a value where a value is puts the new one in its place: the
/// keys keep their order and every other node stays as it is.
pub proof fn lemma_set_existing_value(root: Node, path: Seq<Seq<char>>, value: Node)
    requires
        root.resolve(path) is Some,
        root.resolve(path).unwrap().is_value(),
    ensures
        root.updated(path, Some(value)) == root.replaced_at(path, value),
{
}

/// Setting `section.key` where the root has no `section` makes the section:
/// a new implicit table that holds the value and nothing else, behind the
/// entries that the root has.
pub proof fn lemma_set_new_section(root: Node, section: Seq<char>, key: Seq<char>, value: Node)
    requires
        root is Table,
        !root.has_key(section),
    ensures
        root.updated(seq![section, key], Some(value)) == root.inserted(
            section,
            Node::empty_table(true, false).inserted(key, value),
        ),
        root.updated(seq![section, key], Some(value))->Table_order == root->Table_order.push(
            section,
        ),
{
    let path = seq![section, key];
    let parents = path.drop_last();
    assert(parents =~= seq![section]);
    assert(parents.skip(1) =~= Seq::<Seq<char>>::empty());
    assert(path.skip(1) =~= seq![key]);
    assert(root.child(section) is None);
    let fresh = Node::empty_table(true, false);
    assert(fresh.descended(parents.skip(1)) == fresh);
    assert(root.descended(parents) == fresh);
    assert(fresh.grafted(parents.skip(1), fresh.inserted(key, value)) == fresh.inserted(key, value));
}

/// Exchanging a node below one key of the root changes nothing that is
/// found below another key.
pub proof fn lemma_replaced_elsewhere(
    root: Node,
    path: Seq<Seq<char>>,
    sub: Node,
    other: Seq<Seq<char>>,
)
    requires
        path.len() > 0,
        other.len() > 0,
        path[0] != other[0],
    ensures
        root.replaced_at(path, sub).resolve(other) == root.resolve(other),
        root.replaced_at(path, sub).has_key(other[0]) == root.has_key(other[0]),
{
    assert(root.replaced_at(path, sub).child(other[0]) == root.child(other[0]));
}

/// A batch that overwrites two values in different sections and adds a key
/// in a section that is not there yet: the two values are exchanged in
/// their places, nothing else in the document changes, and the new section
/// comes behind the entries of the root, holding the new key only.
pub proof fn lemma_mixed_batch(
    root: Node,
    first: Update,
    second: Update,
    third: Update,
)
    requires
        root is Table,
        first.payload is Some,
        second.payload is Some,
        third.payload is Some,
        first.path.len() > 0,
        second.path.len() > 0,
        first.path[0] != second.path[0],
        root.resolve(first.path) is Some,
        root.resolve(first.path).unwrap().is_value(),
        root.resolve(second.path) is Some,
        root.resolve(second.path).unwrap().is_value(),
        third.path.len() == 2,
        !root.has_key(third.path[0]),
    ensures
        updated_all(root, seq![first, second, third]) == root.replaced_at(
            first.path,
            first.payload.unwrap(),
        ).replaced_at(second.path, second.payload.unwrap()).inserted(
            third.path[0],
            Node::empty_table(true, false).inserted(third.path[1], third.payload.unwrap()),
        ),
        updated_all(root, seq![first, second, third])->Table_order == root->Table_order.push(
            third.path[0],
        ),
{
    let batch = seq![first, second, third];
    let two = seq![first, second];
    let one = seq![first];
    assert(batch.drop_last() =~= two);
    assert(two.drop_last() =~= one);
    assert(one.drop_last() =~= Seq::<Update>::empty());
    assert(updated_all(root, Seq::<Update>::empty()) == root);
    let after_first = root.replaced_at(first.path, first.payload.unwrap());
    assert(updated_all(root, one) == after_first);
    lemma_replaced_elsewhere(root, first.path, first.payload.unwrap(), second.path);
    let after_second = after_first.replaced_at(second.path, second.payload.unwrap());
    assert(updated_all(root, two) == after_second);
    assert(root.child(first.path[0]) is Some);
    assert(root.child(second.path[0]) is Some);
    assert(after_second is Table);
    assert(!after_second.has_key(third.path[0]));
    assert(third.path =~= seq![third.path[0], third.path[1]]);
    lemma_set_new_section(after_second, third.path[0], third.path[1], third.payload.unwrap());
    assert(after_second->Table_order == root->Table_order);
}

} // verus!
