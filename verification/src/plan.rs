//! Turning the two lists of a patch call into updates, in the order in
//! which they are applied.

use vstd::prelude::*;
use vstd::string::*;
use toml_edit::Value;
use crate::apply::payload_node;
use crate::text::{decimal_text, index_text, split_on, split_str, trim_str, trimmed};
use crate::tree::{fits, Node};
use crate::value::{parse_value, parsed_value};

verus! {

/// One update of a batch.
#[derive(Debug, Clone)]
pub struct UpdateItem {
    /// The place of the update in the batch, counted from zero.
    pub original_index: usize,
    /// The segments of its path.
    pub path_parts: Vec<String>,
    /// The value to set, or `None` to delete what is at the path.
    pub value_to_insert: Option<Value>,
}

/// An update as the contracts see it.
pub struct Update {
    pub index: nat,
    pub path: Seq<Seq<char>>,
    pub payload: Option<Node>,
}

impl View for UpdateItem {
    type V = Update;

    open spec fn view(&self) -> Update {
        Update {
            index: self.original_index as nat,
            path: self.path_parts.deep_view(),
            payload: payload_node(self.value_to_insert),
        }
    }
}

/// The views of a list of updates.
pub open spec fn views(items: Seq<UpdateItem>) -> Seq<Update> {
    Seq::new(items.len(), |i: int| items[i]@)
}

/// A path is valid when it has a segment and no segment is empty.
pub open spec fn valid_path(path: Seq<Seq<char>>) -> bool {
    path.len() > 0 && forall|i: int| 0 <= i < path.len() ==> (#[trigger] path[i]).len() > 0
}

/// The segments of a dotted path.
pub open spec fn path_segments(raw: Seq<char>) -> Seq<Seq<char>> {
    split_on(raw, '.')
}

/// The items of a comma-separated list, each without the white space
/// around it.
pub open spec fn list_items(csv: Seq<char>) -> Seq<Seq<char>> {
    split_on(csv, ',').map_values(|item: Seq<char>| trimmed(item))
}

/// Whether `a` is applied before `b`, or may be: the deeper path first, and
/// among paths of one depth the earlier update.
pub open spec fn goes_before(a: Update, b: Update) -> bool {
    a.path.len() > b.path.len() || (a.path.len() == b.path.len() && a.index <= b.index)
}

/// `sorted` with `u` put behind the last update that goes before it.
pub open spec fn inserted_in_order(sorted: Seq<Update>, u: Update) -> Seq<Update>
    decreases sorted.len(),
{
    if sorted.len() == 0 {
        seq![u]
    } else if goes_before(sorted.last(), u) {
        sorted.push(u)
    } else {
        inserted_in_order(sorted.drop_last(), u).push(sorted.last())
    }
}

/// The updates in the order in which they are applied: deepest path first,
/// and updates of one depth by their index. Updates that agree in both stay
/// in the order in which they came.
pub open spec fn application_order(updates: Seq<Update>) -> Seq<Update>
    decreases updates.len(),
{
    if updates.len() == 0 {
        updates
    } else {
        inserted_in_order(application_order(updates.drop_last()), updates.last())
    }
}

/// The first index at which `paths` holds a path that is not valid.
pub open spec fn first_invalid_path(paths: Seq<Seq<char>>) -> Option<int>
    decreases paths.len(),
{
    if paths.len() == 0 {
        None
    } else {
        match first_invalid_path(paths.drop_last()) {
            Some(i) => Some(i),
            None => if valid_path(path_segments(paths.last())) {
                None
            } else {
                Some(paths.len() - 1)
            },
        }
    }
}

/// The message for a path that is not valid.
pub open spec fn invalid_path_message(index: nat, path: Seq<char>) -> Seq<char> {
    "Path at index "@ + decimal_text(index) + " ('"@ + path
        + "') is invalid or contains empty segments"@
}

/// The updates of a batch in the order of the batch.
pub open spec fn batch_updates(paths: Seq<Seq<char>>, values: Seq<Seq<char>>) -> Seq<Update> {
    Seq::new(
        paths.len(),
        |i: int| Update { index: i as nat, path: path_segments(paths[i]), payload: parsed_value(values[i]) },
    )
}

/// What planning makes of the two lists: the updates in application order,
/// or the message that says why there are none. The lists must have the
/// same number of items and every path must be valid; the first path that
/// is not is reported.
pub open spec fn planned(paths_csv: Seq<char>, values_csv: Seq<char>) -> Result<Seq<Update>, Seq<char>> {
    let paths = list_items(paths_csv);
    let values = list_items(values_csv);
    if paths.len() != values.len() {
        Err("Number of paths must match number of values"@)
    } else {
        match first_invalid_path(paths) {
            Some(i) => Err(invalid_path_message(i as nat, paths[i])),
            None => Ok(application_order(batch_updates(paths, values))),
        }
    }
}

/// Splits a comma-separated list and trims each item.
pub fn split_comma_separated_str(s: &str) -> (r: Vec<String>)
    ensures
        r.deep_view() == list_items(s@),
{
    let pieces = split_str(s, ',');
    let mut items: Vec<String> = Vec::new();
    let mut i: usize = 0;
    while i < pieces.len()
        invariant
            i <= pieces.len(),
            pieces.deep_view() == split_on(s@, ','),
            items.len() == i,
            forall|j: int| 0 <= j < i ==> (#[trigger] items[j])@ == trimmed(pieces[j]@),
        decreases pieces.len() - i,
    {
        let item = trim_str(pieces[i].as_str()).to_string();
        items.push(item);
        i += 1;
    }
    proof {
        assert(items.deep_view() =~= list_items(s@)) by {
            assert forall|j: int| 0 <= j < items.len() implies items.deep_view()[j] == list_items(
                s@,
            )[j] by {
                assert(pieces.deep_view()[j] == pieces[j]@);
            }
        }
    }
    items
}

/// Splits a dotted path into its segments. A path with an empty segment is
/// refused: one that is empty, or starts or ends with a dot, or has two
/// dots in a row.
pub fn parse_path(raw: &str) -> (r: Option<Vec<String>>)
    ensures
        match r {
            Some(parts) => valid_path(path_segments(raw@)) && parts.deep_view() == path_segments(
                raw@,
            ),
            None => !valid_path(path_segments(raw@)),
        },
{
    let parts = split_str(raw, '.');
    if parts.len() == 0 {
        return None;
    }
    let mut i: usize = 0;
    while i < parts.len()
        invariant
            i <= parts.len(),
            parts.deep_view() == path_segments(raw@),
            forall|j: int| 0 <= j < i ==> (#[trigger] path_segments(raw@)[j]).len() > 0,
        decreases parts.len() - i,
    {
        proof {
            assert(parts.deep_view()[i as int] == parts[i as int]@);
        }
        if parts[i].as_str().unicode_len() == 0 {
            return None;
        }
        i += 1;
    }
    Some(parts)
}

/// Whether `a` is applied before `b`, or may be.
pub fn applies_before(a: &UpdateItem, b: &UpdateItem) -> (r: bool)
    ensures
        r == goes_before(a@, b@),
{
    let depth_a = a.path_parts.len();
    let depth_b = b.path_parts.len();
    depth_a > depth_b || (depth_a == depth_b && a.original_index <= b.original_index)
}

/// Sorts the updates into the order in which they are applied: longest path
/// first, and paths of one length by their index.
pub fn sort_updates(updates: &mut Vec<UpdateItem>)
    ensures
        views(final(updates)@) == application_order(views(old(updates)@)),
{
    let ghost all = views(updates@);
    let mut sorted: Vec<UpdateItem> = Vec::new();
    let mut taken: usize = 0;
    let count = updates.len();
    proof {
        assert(all.take(0) =~= Seq::<Update>::empty());
        assert(views(sorted@) =~= Seq::<Update>::empty());
    }
    while updates.len() > 0
        invariant
            taken + updates.len() == count,
            count == all.len(),
            views(updates@) == all.skip(taken as int),
            views(sorted@) == application_order(all.take(taken as int)),
        decreases updates.len(),
    {
        let ghost rest = views(updates@);
        let ghost before = views(sorted@);
        let item = updates.remove(0);
        proof {
            assert(item@ == all[taken as int]) by {
                assert(rest[0] == all[taken as int]);
            }
            assert(views(updates@) =~= all.skip(taken as int + 1)) by {
                assert forall|j: int| 0 <= j < updates@.len() implies views(updates@)[j]
                    == all.skip(taken as int + 1)[j] by {
                    assert(rest[j + 1] == all[taken as int + 1 + j]);
                }
            }
            assert(all.take(taken as int + 1).drop_last() =~= all.take(taken as int));
        }
        let mut pos: usize = sorted.len();
        proof {
            assert(before.take(pos as int) =~= before);
            assert(inserted_in_order(before, item@) + before.skip(pos as int)
                =~= inserted_in_order(before, item@));
        }
        while pos > 0 && !applies_before(&sorted[pos - 1], &item)
            invariant
                pos <= sorted.len(),
                views(sorted@) == before,
                inserted_in_order(before, item@) == inserted_in_order(
                    before.take(pos as int),
                    item@,
                ) + before.skip(pos as int),
            decreases pos,
        {
            proof {
                let head = before.take(pos as int);
                assert(head.last() == before[pos as int - 1]);
                assert(head.drop_last() =~= before.take(pos as int - 1));
                assert(inserted_in_order(head.drop_last(), item@).push(head.last()) + before.skip(
                    pos as int,
                ) =~= inserted_in_order(head.drop_last(), item@) + before.skip(pos as int - 1));
            }
            pos -= 1;
        }
        proof {
            let head = before.take(pos as int);
            if pos > 0 {
                assert(head.last() == before[pos as int - 1]);
            }
            assert(inserted_in_order(head, item@) == head.push(item@));
            assert(head.push(item@) + before.skip(pos as int) =~= before.insert(pos as int, item@));
        }
        sorted.insert(pos, item);
        proof {
            assert(views(sorted@) =~= before.insert(pos as int, item@));
        }
        taken += 1;
    }
    proof {
        assert(all.take(taken as int) =~= all);
    }
    *updates = sorted;
}

/// Putting an update in order adds it and nothing else.
pub proof fn lemma_inserted_in_order_members(sorted: Seq<Update>, u: Update)
    ensures
        inserted_in_order(sorted, u).len() == sorted.len() + 1,
        forall|i: int|
            0 <= i < sorted.len() + 1 ==> {
                let x = #[trigger] inserted_in_order(sorted, u)[i];
                x == u || sorted.contains(x)
            },
    decreases sorted.len(),
{
    if sorted.len() > 0 && !goes_before(sorted.last(), u) {
        lemma_inserted_in_order_members(sorted.drop_last(), u);
        let shorter = inserted_in_order(sorted.drop_last(), u);
        assert forall|i: int| 0 <= i < sorted.len() + 1 implies {
            let x = #[trigger] inserted_in_order(sorted, u)[i];
            x == u || sorted.contains(x)
        } by {
            let x = inserted_in_order(sorted, u)[i];
            if i < sorted.len() {
                assert(x == shorter[i]);
                if x != u {
                    let j = choose|j: int| 0 <= j < sorted.drop_last().len() && sorted.drop_last()[j] == x;
                    assert(sorted[j] == x);
                }
            } else {
                assert(sorted[sorted.len() - 1] == x);
            }
        }
    } else if sorted.len() > 0 {
        assert forall|i: int| 0 <= i < sorted.len() + 1 implies {
            let x = #[trigger] inserted_in_order(sorted, u)[i];
            x == u || sorted.contains(x)
        } by {
            if i < sorted.len() {
                assert(sorted[i] == inserted_in_order(sorted, u)[i]);
            }
        }
    }
}

/// Sorting keeps the number of updates, and every update that comes out
/// went in.
pub proof fn lemma_application_order_members(updates: Seq<Update>)
    ensures
        application_order(updates).len() == updates.len(),
        forall|i: int|
            0 <= i < updates.len() ==> updates.contains(#[trigger] application_order(updates)[i]),
    decreases updates.len(),
{
    if updates.len() > 0 {
        let shorter = application_order(updates.drop_last());
        lemma_application_order_members(updates.drop_last());
        lemma_inserted_in_order_members(shorter, updates.last());
        assert forall|i: int| 0 <= i < updates.len() implies updates.contains(
            #[trigger] application_order(updates)[i],
        ) by {
            let x = application_order(updates)[i];
            if x == updates.last() {
                assert(updates[updates.len() - 1] == x);
            } else {
                let j = choose|j: int| 0 <= j < shorter.len() && shorter[j] == x;
                let k = choose|k: int| 0 <= k < updates.drop_last().len() && updates.drop_last()[k] == x;
                assert(updates[k] == x);
            }
        }
    }
}

/// Where no path of a list is invalid, each is valid.
pub proof fn lemma_no_invalid_path(paths: Seq<Seq<char>>)
    requires
        first_invalid_path(paths) is None,
    ensures
        forall|i: int| 0 <= i < paths.len() ==> valid_path(path_segments(#[trigger] paths[i])),
    decreases paths.len(),
{
    if paths.len() > 0 {
        lemma_no_invalid_path(paths.drop_last());
        assert forall|i: int| 0 <= i < paths.len() implies valid_path(
            path_segments(#[trigger] paths[i]),
        ) by {
            if i < paths.len() - 1 {
                assert(paths.drop_last()[i] == paths[i]);
            }
        }
    }
}

/// Every planned update has a valid path.
pub proof fn lemma_planned_paths_valid(paths_csv: Seq<char>, values_csv: Seq<char>)
    requires
        planned(paths_csv, values_csv) is Ok,
    ensures
        forall|i: int|
            0 <= i < planned(paths_csv, values_csv)->Ok_0.len() ==> valid_path(
                (#[trigger] planned(paths_csv, values_csv)->Ok_0[i]).path,
            ),
{
    let paths = list_items(paths_csv);
    let values = list_items(values_csv);
    let batch = batch_updates(paths, values);
    lemma_no_invalid_path(paths);
    lemma_application_order_members(batch);
    assert forall|i: int| 0 <= i < application_order(batch).len() implies valid_path(
        (#[trigger] application_order(batch)[i]).path,
    ) by {
        let x = application_order(batch)[i];
        let j = choose|j: int| 0 <= j < batch.len() && batch[j] == x;
        assert(x.path == path_segments(paths[j]));
    }
}

/// Every planned update carries nothing or a scalar, which can stand
/// anywhere in a document.
pub proof fn lemma_planned_payloads_fit(paths_csv: Seq<char>, values_csv: Seq<char>)
    requires
        planned(paths_csv, values_csv) is Ok,
    ensures
        forall|i: int|
            0 <= i < planned(paths_csv, values_csv)->Ok_0.len() ==> fits(
                (#[trigger] planned(paths_csv, values_csv)->Ok_0[i]).payload,
            ),
{
    let paths = list_items(paths_csv);
    let values = list_items(values_csv);
    let batch = batch_updates(paths, values);
    lemma_application_order_members(batch);
    assert forall|i: int| 0 <= i < application_order(batch).len() implies fits(
        (#[trigger] application_order(batch)[i]).payload,
    ) by {
        let x = application_order(batch)[i];
        let j = choose|j: int| 0 <= j < batch.len() && batch[j] == x;
        assert(x.payload == parsed_value(values[j]));
    }
}

/// Where the paths before `i` are valid and the one at `i` is not, `i` is
/// the first index of a path that is not valid.
pub proof fn lemma_first_invalid_path(paths: Seq<Seq<char>>, i: int)
    requires
        0 <= i < paths.len(),
        first_invalid_path(paths.take(i)) is None,
        !valid_path(path_segments(paths[i])),
    ensures
        first_invalid_path(paths) == Some(i),
    decreases paths.len(),
{
    if paths.len() == i + 1 {
        assert(paths.drop_last() =~= paths.take(i));
    } else {
        assert(paths.drop_last().take(i) =~= paths.take(i));
        lemma_first_invalid_path(paths.drop_last(), i);
    }
}

/// Plans a batch: splits the two lists, pairs each path with its value and
/// sorts the updates into the order in which they are applied. Nothing is
/// planned unless the lists have the same number of items and every path
/// is valid.
pub fn prepare_updates(paths_str: &str, values_str: &str) -> (r: Result<Vec<UpdateItem>, String>)
    ensures
        match planned(paths_str@, values_str@) {
            Ok(updates) => r is Ok && views(r->Ok_0@) == updates,
            Err(message) => r is Err && r->Err_0@ == message,
        },
{
    let path_list = split_comma_separated_str(paths_str);
    let value_list = split_comma_separated_str(values_str);
    if path_list.len() != value_list.len() {
        return Err("Number of paths must match number of values".to_string());
    }
    let ghost paths = list_items(paths_str@);
    let ghost values = list_items(values_str@);
    let mut updates: Vec<UpdateItem> = Vec::new();
    let mut i: usize = 0;
    proof {
        assert(paths.take(0) =~= Seq::<Seq<char>>::empty());
        assert(views(updates@) =~= batch_updates(paths, values).take(0));
    }
    while i < path_list.len()
        invariant
            i <= path_list.len(),
            path_list.len() == value_list.len(),
            paths == path_list.deep_view(),
            values == value_list.deep_view(),
            paths == list_items(paths_str@),
            values == list_items(values_str@),
            first_invalid_path(paths.take(i as int)) is None,
            views(updates@) == batch_updates(paths, values).take(i as int),
        decreases path_list.len() - i,
    {
        let path = path_list[i].as_str();
        proof {
            assert(paths[i as int] == path@);
            assert(values[i as int] == value_list[i as int]@);
            assert(paths.take(i as int + 1).drop_last() =~= paths.take(i as int));
        }
        match parse_path(path) {
            Some(path_parts) => {
                let parsed_value = parse_value(value_list[i].as_str());
                let ghost before = views(updates@);
                updates.push(
                    UpdateItem { original_index: i, path_parts, value_to_insert: parsed_value },
                );
                proof {
                    assert(views(updates@) =~= before.push(batch_updates(paths, values)[i as int]));
                    assert(views(updates@) =~= batch_updates(paths, values).take(i as int + 1));
                }
            },
            None => {
                proof {
                    lemma_first_invalid_path(paths, i as int);
                }
                let mut message = "Path at index ".to_string();
                message.append(index_text(i).as_str());
                message.append(" ('");
                message.append(path);
                message.append("') is invalid or contains empty segments");
                return Err(message);
            },
        }
        i += 1;
    }
    proof {
        assert(paths.take(i as int) =~= paths);
        assert(batch_updates(paths, values).take(i as int) =~= batch_updates(paths, values));
    }
    sort_updates(&mut updates);
    Ok(updates)
}

} // verus!
