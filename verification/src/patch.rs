//! The two entry points: write a document back as it is read, and patch a
//! document by a batch of updates.

use vstd::prelude::*;
use vstd::string::*;
use toml_edit::DocumentMut;
use crate::apply::apply_single_update_to_doc;
use crate::document::{
    doc_root, error_message, error_text, parse_document, parsed_document, render_document,
    rendered,
};
use crate::plan::{
    lemma_planned_paths_valid, planned, prepare_updates, views, Update, UpdateItem,
};
use crate::tree::{fits, Node};

verus! {

/// The tree after the updates were applied one after the other.
pub open spec fn updated_all(root: Node, updates: Seq<Update>) -> Node
    decreases updates.len(),
{
    if updates.len() == 0 {
        root
    } else {
        updated_all(root, updates.drop_last()).updated(updates.last().path, updates.last().payload)
    }
}

/// The first index at which `updates` holds an update with an empty path.
pub open spec fn first_empty_path(updates: Seq<Update>) -> Option<int>
    decreases updates.len(),
{
    if updates.len() == 0 {
        None
    } else {
        match first_empty_path(updates.drop_last()) {
            Some(i) => Some(i),
            None => if updates.last().path.len() > 0 {
                None
            } else {
                Some(updates.len() - 1)
            },
        }
    }
}

/// No update of the list finds anything to do in the tree: each is a
/// deletion with nothing to take out, or a value that meets the "no item"
/// marker.
pub open spec fn all_leave_alone(root: Node, updates: Seq<Update>) -> bool {
    forall|i: int|
        0 <= i < updates.len() ==> root.leaves_alone(
            (#[trigger] updates[i]).path,
            updates[i].payload,
        )
}

/// Every update of the list carries nothing, or a value whose inline
/// tables hold values only.
pub open spec fn all_fit(updates: Seq<Update>) -> bool {
    forall|i: int| 0 <= i < updates.len() ==> fits((#[trigger] updates[i]).payload)
}

/// Where the updates before `i` have a path and the one at `i` has none,
/// `i` is the first index of an update without a path.
pub proof fn lemma_first_empty_path(updates: Seq<Update>, i: int)
    requires
        0 <= i < updates.len(),
        first_empty_path(updates.take(i)) is None,
        updates[i].path.len() == 0,
    ensures
        first_empty_path(updates) == Some(i),
    decreases updates.len(),
{
    if updates.len() == i + 1 {
        assert(updates.drop_last() =~= updates.take(i));
    } else {
        assert(updates.drop_last().take(i) =~= updates.take(i));
        lemma_first_empty_path(updates.drop_last(), i);
    }
}

/// Updates that all have a path have no first one without.
pub proof fn lemma_no_empty_path(updates: Seq<Update>)
    requires
        forall|i: int| 0 <= i < updates.len() ==> (#[trigger] updates[i]).path.len() > 0,
    ensures
        first_empty_path(updates) is None,
    decreases updates.len(),
{
    if updates.len() > 0 {
        lemma_no_empty_path(updates.drop_last());
    }
}

/// Applies the updates to the document in the order of the list. An update
/// with an empty path stops the run: the updates before it are applied, it
/// and those behind it are not.
pub fn apply_updates(doc: &mut DocumentMut, updates: Vec<UpdateItem>) -> (r: Result<(), String>)
    requires
        doc_root(*old(doc)) is Table,
    ensures
        match first_empty_path(views(updates@)) {
            None => r is Ok && doc_root(*final(doc)) == updated_all(
                doc_root(*old(doc)),
                views(updates@),
            ),
            Some(i) => r is Err && r->Err_0@ == "Cannot apply update with an empty path"@
                && doc_root(*final(doc)) == updated_all(
                doc_root(*old(doc)),
                views(updates@).take(i),
            ),
        },
        all_leave_alone(doc_root(*old(doc)), views(updates@)) ==> *final(doc) == *old(doc),
        doc_root(*final(doc)) is Table,
        doc_root(*old(doc)).well_formed() && all_fit(views(updates@)) ==> doc_root(
            *final(doc),
        ).well_formed(),
{
    let ghost root = doc_root(*doc);
    let ghost start = *doc;
    let ghost all = views(updates@);
    let mut rest = updates;
    let ghost mut done: int = 0;
    proof {
        assert(all.take(0) =~= Seq::<Update>::empty());
        assert(all.skip(0) =~= all);
    }
    while rest.len() > 0
        invariant
            root == doc_root(*old(doc)),
            all == views(updates@),
            0 <= done,
            done + rest.len() == all.len(),
            views(rest@) == all.skip(done),
            first_empty_path(all.take(done)) is None,
            doc_root(*doc) == updated_all(root, all.take(done)),
            doc_root(*doc) is Table,
            root == doc_root(start),
            start == *old(doc),
            all_leave_alone(root, all) ==> *doc == start,
            root.well_formed() && all_fit(all) ==> doc_root(*doc).well_formed(),
        decreases rest.len(),
    {
        let ghost left = views(rest@);
        let item = rest.remove(0);
        proof {
            assert(item@ == all[done]) by {
                assert(left[0] == all[done]);
            }
            assert(views(rest@) =~= all.skip(done + 1)) by {
                assert forall|j: int| 0 <= j < rest@.len() implies views(rest@)[j] == all.skip(
                    done + 1,
                )[j] by {
                    assert(left[j + 1] == all[done + 1 + j]);
                }
            }
            assert(all.take(done + 1).drop_last() =~= all.take(done));
        }
        match apply_single_update_to_doc(doc, item.path_parts.as_slice(), item.value_to_insert) {
            Ok(()) => {},
            Err(message) => {
                proof {
                    lemma_first_empty_path(all, done);
                }
                return Err(message);
            },
        }
        proof {
            done = done + 1;
        }
    }
    proof {
        assert(all.take(done) =~= all);
    }
    Ok(())
}

/// The texts that a result holds.
pub open spec fn result_text(r: Result<String, String>) -> Result<Seq<char>, Seq<char>> {
    match r {
        Ok(text) => Ok(text@),
        Err(message) => Err(message@),
    }
}

/// What writing a text back gives: the text of the parsed document, or the
/// parser's message for a text that is no document.
pub open spec fn echo_result(toml: Seq<char>) -> Result<Seq<char>, Seq<char>> {
    match parsed_document(toml) {
        Ok(doc) => Ok(rendered(doc)),
        Err(error) => Err(error_text(error)@),
    }
}

/// Parses a document and writes it out again. A text that is no document
/// gives the parser's message.
pub fn echo_toml(toml_content: &str) -> (r: Result<String, String>)
    ensures
        result_text(r) == echo_result(toml_content@),
{
    match parse_document(toml_content) {
        Ok(doc) => Ok(render_document(&doc)),
        Err(error) => Err(error_message(&error)),
    }
}

/// What a patch call returns. A text that is no document gives the
/// parser's message behind a fixed prefix; a batch that cannot be planned
/// gives the planner's message. Otherwise the result is the text of a
/// document whose tree is that of the parsed document with the planned
/// updates applied in order; where no update finds anything to do, it is
/// the text of the parsed document itself.
pub open spec fn is_patch_result(
    toml: Seq<char>,
    paths: Seq<char>,
    values: Seq<char>,
    r: Result<Seq<char>, Seq<char>>,
) -> bool {
    match parsed_document(toml) {
        Err(error) => r == Err::<Seq<char>, Seq<char>>("Failed to parse TOML: "@ + error_text(error)@),
        Ok(doc) => match planned(paths, values) {
            Err(message) => r == Err::<Seq<char>, Seq<char>>(message),
            Ok(updates) => r is Ok && (exists|patched: DocumentMut|
                doc_root(patched) == updated_all(doc_root(doc), updates) && r->Ok_0 == #[trigger] rendered(
                    patched,
                )) && (all_leave_alone(doc_root(doc), updates) ==> r->Ok_0 == rendered(doc)),
        },
    }
}

/// Patches a document. `paths_str` is a comma-separated list of dotted
/// paths, `values_str` the list of their values; the value `$undefined`
/// deletes what is at its path. The updates are planned before the first
/// is applied, so a call that fails has changed nothing.
pub fn update_toml_values(toml_content: &str, paths_str: &str, values_str: &str) -> (r: Result<
    String,
    String,
>)
    ensures
        is_patch_result(toml_content@, paths_str@, values_str@, result_text(r)),
{
    let mut doc = match parse_document(toml_content) {
        Ok(doc) => doc,
        Err(error) => {
            let mut message = "Failed to parse TOML: ".to_string();
            message.append(error_message(&error).as_str());
            return Err(message);
        },
    };
    let updates = match prepare_updates(paths_str, values_str) {
        Ok(updates) => updates,
        Err(message) => {
            return Err(message);
        },
    };
    proof {
        lemma_planned_paths_valid(paths_str@, values_str@);
        lemma_no_empty_path(views(updates@));
    }
    match apply_updates(&mut doc, updates) {
        Ok(()) => {},
        Err(message) => {
            return Err(message);
        },
    }
    Ok(render_document(&doc))
}

} // verus!
