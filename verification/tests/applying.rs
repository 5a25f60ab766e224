use std::str::FromStr;

use toml_edit::{DocumentMut, Item, Value};
use toml_patch::apply::{
    apply_single_update_to_doc, delete_item_at_path, get_item_at_path_mut,
    simple_table_insertion,
};
use toml_patch::patch::apply_updates;
use toml_patch::plan::UpdateItem;
use toml_patch::{echo_toml, update_toml_values, TomlPatchError};

fn doc(text: &str) -> DocumentMut {
    DocumentMut::from_str(text).unwrap()
}

fn path(parts: &[&str]) -> Vec<String> {
    parts.iter().map(|s| s.to_string()).collect()
}

fn update(index: usize, parts: &[&str], value: Option<Value>) -> UpdateItem {
    UpdateItem { original_index: index, path_parts: path(parts), value_to_insert: value }
}

#[test]
fn resolver_finds_a_value_in_a_table() {
    let mut d = doc("[a.b]\nc = 7\n");
    let found = get_item_at_path_mut(&mut d, &path(&["a", "b", "c"])).unwrap();
    assert_eq!(found.as_integer(), Some(7));
}

#[test]
fn resolver_finds_a_table() {
    let mut d = doc("[a.b]\nc = 7\n");
    assert!(get_item_at_path_mut(&mut d, &path(&["a", "b"])).unwrap().is_table());
    assert!(get_item_at_path_mut(&mut d, &path(&["a"])).unwrap().is_table());
}

#[test]
fn resolver_gives_the_root_for_the_empty_path() {
    let mut d = doc("x = 1\n");
    let root = get_item_at_path_mut(&mut d, &path(&[])).unwrap();
    assert!(root.is_table());
    assert_eq!(root.get("x").unwrap().as_integer(), Some(1));
}

#[test]
fn resolver_finds_nothing_for_a_missing_key() {
    let mut d = doc("[a]\nb = 1\n");
    assert!(get_item_at_path_mut(&mut d, &path(&["a", "c"])).is_none());
    assert!(get_item_at_path_mut(&mut d, &path(&["x"])).is_none());
    assert!(get_item_at_path_mut(&mut d, &path(&["x", "y", "z"])).is_none());
    assert_eq!(d.to_string(), "[a]\nb = 1\n");
}

#[test]
fn resolver_does_not_pass_through_a_scalar() {
    let mut d = doc("[a]\nb = 1\n");
    assert!(get_item_at_path_mut(&mut d, &path(&["a", "b", "c"])).is_none());
}

#[test]
fn resolver_passes_through_an_inline_table() {
    let mut d = doc("a = { b = { c = 3 } }\n");
    let found = get_item_at_path_mut(&mut d, &path(&["a", "b", "c"])).unwrap();
    assert_eq!(found.as_integer(), Some(3));
}

#[test]
fn resolver_does_not_pass_through_an_array_of_tables() {
    let mut d = doc("[[a]]\nb = 1\n");
    assert!(get_item_at_path_mut(&mut d, &path(&["a"])).unwrap().is_array_of_tables());
    assert!(get_item_at_path_mut(&mut d, &path(&["a", "b"])).is_none());
}

#[test]
fn resolver_hands_out_the_item_itself() {
    let mut d = doc("[a]\nb = 1\n");
    let found = get_item_at_path_mut(&mut d, &path(&["a", "b"])).unwrap();
    *found = Item::Value(Value::from(2));
    assert_eq!(d.to_string(), "[a]\nb = 2\n");
}

#[test]
fn delete_takes_an_entry_out() {
    let mut d = doc("[a]\nb = 1\nc = 2\nd = 3\n");
    delete_item_at_path(&mut d, &path(&["a", "c"]));
    assert_eq!(d.to_string(), "[a]\nb = 1\nd = 3\n");
}

#[test]
fn delete_takes_a_whole_table_out() {
    let mut d = doc("x = 1\n\n[a]\nb = 1\n");
    delete_item_at_path(&mut d, &path(&["a"]));
    assert_eq!(d.to_string(), "x = 1\n");
}

#[test]
fn delete_of_a_missing_key_changes_nothing() {
    let mut d = doc("[a]\nb = 1\n");
    delete_item_at_path(&mut d, &path(&["a", "zzz"]));
    assert_eq!(d.to_string(), "[a]\nb = 1\n");
}

#[test]
fn delete_below_a_missing_parent_changes_nothing() {
    let mut d = doc("[a]\nb = 1\n");
    delete_item_at_path(&mut d, &path(&["x", "y"]));
    delete_item_at_path(&mut d, &path(&["a", "b", "c"]));
    assert_eq!(d.to_string(), "[a]\nb = 1\n");
}

#[test]
fn delete_with_the_empty_path_changes_nothing() {
    let mut d = doc("[a]\nb = 1\n");
    delete_item_at_path(&mut d, &path(&[]));
    assert_eq!(d.to_string(), "[a]\nb = 1\n");
}

#[test]
fn delete_takes_an_entry_out_of_an_inline_table() {
    let mut d = doc("a = { b = 1, c = 2 }\n");
    delete_item_at_path(&mut d, &path(&["a", "b"]));
    assert!(get_item_at_path_mut(&mut d, &path(&["a", "b"])).is_none());
    assert_eq!(d["a"]["c"].as_integer(), Some(2));
    assert!(d["a"].is_inline_table());
    assert_eq!(d["a"].as_inline_table().unwrap().len(), 1);
}

#[test]
fn delete_of_a_missing_key_leaves_an_inline_table_alone() {
    let mut d = doc("a = { b = 1, c = 2 } # kept\n");
    delete_item_at_path(&mut d, &path(&["a", "x"]));
    assert_eq!(d.to_string(), "a = { b = 1, c = 2 } # kept\n");
}

#[test]
fn delete_below_a_scalar_changes_nothing() {
    let mut d = doc("a = 1\n");
    delete_item_at_path(&mut d, &path(&["a", "b"]));
    assert_eq!(d.to_string(), "a = 1\n");
}

#[test]
fn delete_leaves_nothing_at_the_path() {
    for text in ["[a]\nb = 1\n", "a = { b = 1 }\n", "[a.b]\nc = 1\n", "[[a.b]]\nc = 1\n", "x = 1\n"] {
        let mut d = doc(text);
        delete_item_at_path(&mut d, &path(&["a", "b"]));
        assert!(get_item_at_path_mut(&mut d, &path(&["a", "b"])).is_none());
    }
}

#[test]
fn nested_insertion_into_the_root() {
    let mut d = doc("x = 1\n");
    simple_table_insertion(&mut d, &path(&[]), "y", Value::from(2));
    assert_eq!(d.to_string(), "x = 1\ny = 2\n");
}

#[test]
fn nested_insertion_makes_implicit_tables() {
    let mut d = doc("");
    simple_table_insertion(&mut d, &path(&["a", "b"]), "c", Value::from(true));
    assert_eq!(d.to_string(), "[a.b]\nc = true\n");
    assert!(d["a"].as_table().unwrap().is_implicit());
    assert!(d["a"]["b"].as_table().unwrap().is_implicit());
    assert!(!d["a"].as_table().unwrap().is_dotted());
}

#[test]
fn nested_insertion_keeps_tables_that_are_there() {
    let mut d = doc("[a]\nx = 1\n");
    simple_table_insertion(&mut d, &path(&["a"]), "y", Value::from(2));
    assert_eq!(d.to_string(), "[a]\nx = 1\ny = 2\n");
    assert!(!d["a"].as_table().unwrap().is_implicit());
}

#[test]
fn nested_insertion_puts_a_table_in_the_place_of_a_value() {
    let mut d = doc("a = 1\nz = 2\n");
    simple_table_insertion(&mut d, &path(&["a"]), "b", Value::from(3));
    let keys: Vec<&str> = d.iter().map(|(k, _)| k).collect();
    assert_eq!(keys, vec!["a", "z"]);
    assert!(d["a"].is_table());
    assert_eq!(d["a"]["b"].as_integer(), Some(3));
    assert_eq!(d["z"].as_integer(), Some(2));
}

#[test]
fn nested_insertion_overwrites_the_key() {
    let mut d = doc("[a]\nb = 1\nc = 2\n");
    simple_table_insertion(&mut d, &path(&["a"]), "b", Value::from("new"));
    assert_eq!(d.to_string(), "[a]\nb = \"new\"\nc = 2\n");
}

#[test]
fn apply_refuses_the_empty_path() {
    let mut d = doc("[a]\nb = 1\n");
    let result = apply_single_update_to_doc(&mut d, &path(&[]), Some(Value::from(1)));
    assert_eq!(result, Err("Cannot apply update with an empty path".to_string()));
    let result = apply_single_update_to_doc(&mut d, &path(&[]), None);
    assert_eq!(result, Err("Cannot apply update with an empty path".to_string()));
    assert_eq!(d.to_string(), "[a]\nb = 1\n");
}

#[test]
fn apply_overwrites_a_value_in_place() {
    let mut d = doc("[a]\nb = 1\nc = 2\n");
    assert_eq!(apply_single_update_to_doc(&mut d, &path(&["a", "b"]), Some(Value::from(9))), Ok(()));
    assert_eq!(d.to_string(), "[a]\nb = 9\nc = 2\n");
}

#[test]
fn apply_overwrites_inside_an_inline_table() {
    let mut d = doc("a = { b = 1, c = 2 }\n");
    assert_eq!(apply_single_update_to_doc(&mut d, &path(&["a", "b"]), Some(Value::from(5))), Ok(()));
    assert_eq!(d["a"]["b"].as_integer(), Some(5));
    assert_eq!(d["a"]["c"].as_integer(), Some(2));
    assert!(d["a"].is_inline_table());
}

#[test]
fn apply_overwrites_an_inline_table_by_a_value() {
    let mut d = doc("a = { b = 1 }\nz = 1\n");
    assert_eq!(apply_single_update_to_doc(&mut d, &path(&["a"]), Some(Value::from(5))), Ok(()));
    assert_eq!(d.to_string(), "a = 5\nz = 1\n");
}

#[test]
fn apply_puts_a_value_in_the_place_of_a_table() {
    let mut d = doc("[a.b.c]\nd = 1\n");
    assert_eq!(apply_single_update_to_doc(&mut d, &path(&["a", "b"]), Some(Value::from(1))), Ok(()));
    assert_eq!(d.to_string(), "[a]\nb = 1\n");
}

#[test]
fn apply_puts_a_value_in_the_place_of_an_array_of_tables() {
    let mut d = doc("[[a.b.c]]\nd = 1\n");
    assert_eq!(
        apply_single_update_to_doc(&mut d, &path(&["a", "b", "c"]), Some(Value::from(1))),
        Ok(())
    );
    assert_eq!(d.to_string(), "[a.b]\nc = 1\n");
}

#[test]
fn apply_moves_a_replaced_table_to_the_end() {
    let mut d = doc("[t]\n[t.a]\nx = 1\n[t.b]\ny = 2\n");
    assert_eq!(apply_single_update_to_doc(&mut d, &path(&["t", "a"]), Some(Value::from(0))), Ok(()));
    let keys: Vec<&str> = d["t"].as_table().unwrap().iter().map(|(k, _)| k).collect();
    assert_eq!(keys, vec!["b", "a"]);
}

#[test]
fn apply_attaches_a_dotted_key_to_a_grandparent_table() {
    let mut d = doc("[a]\nd = 1\n");
    assert_eq!(
        apply_single_update_to_doc(&mut d, &path(&["a", "b", "c"]), Some(Value::from(1))),
        Ok(())
    );
    assert_eq!(d.to_string(), "[a]\nd = 1\nb.c = 1\n");
    let b = d["a"]["b"].as_table().unwrap();
    assert!(b.is_dotted());
    assert!(!b.is_implicit());
}

#[test]
fn apply_makes_a_table_below_an_implicit_grandparent() {
    let mut d = doc("[a.b.c]\nd = 1\n");
    assert!(d["a"].as_table().unwrap().is_implicit());
    assert_eq!(
        apply_single_update_to_doc(&mut d, &path(&["a", "x", "y"]), Some(Value::from(1))),
        Ok(())
    );
    let x = d["a"]["x"].as_table().unwrap();
    assert!(x.is_implicit());
    assert!(!x.is_dotted());
    assert_eq!(x["y"].as_integer(), Some(1));
    assert_eq!(d.to_string(), "[a.b.c]\nd = 1\n\n[a.x]\ny = 1\n");
}

#[test]
fn apply_attaches_a_dotted_key_below_an_explicit_grandparent_only() {
    let mut d = doc("[a]\n[a.b.c]\nd = 1\n");
    assert!(!d["a"].as_table().unwrap().is_implicit());
    assert!(d["a"]["b"].as_table().unwrap().is_implicit());
    apply_single_update_to_doc(&mut d, &path(&["a", "x", "y"]), Some(Value::from(1))).unwrap();
    apply_single_update_to_doc(&mut d, &path(&["a", "b", "p", "q"]), Some(Value::from(2))).unwrap();
    assert!(d["a"]["x"].as_table().unwrap().is_dotted());
    let p = d["a"]["b"]["p"].as_table().unwrap();
    assert!(!p.is_dotted());
    assert!(p.is_implicit());
    assert_eq!(p["q"].as_integer(), Some(2));
}

#[test]
fn apply_finds_the_value_at_its_path_afterwards() {
    for parts in [
        vec!["a"],
        vec!["a", "b"],
        vec!["a", "b", "c"],
        vec!["t", "sub", "k"],
        vec!["t", "sub", "k", "deeper"],
        vec!["i", "x"],
        vec!["i", "n", "m"],
        vec!["l", "x", "y"],
        vec!["new", "p", "q", "r"],
    ] {
        let mut d = doc("a = 1\ni = { x = 1 }\n\n[t.sub]\nk = 1\n\n[[l]]\nz = 1\n");
        apply_single_update_to_doc(&mut d, &path(&parts), Some(Value::from(77))).unwrap();
        let found = get_item_at_path_mut(&mut d, &path(&parts)).unwrap();
        assert_eq!(found.as_integer(), Some(77));
    }
}

#[test]
fn apply_makes_tables_where_there_is_no_grandparent_table() {
    let mut d = doc("[a]\nb = 1\n");
    assert_eq!(
        apply_single_update_to_doc(&mut d, &path(&["a", "c", "d", "e"]), Some(Value::from(2))),
        Ok(())
    );
    assert_eq!(d.to_string(), "[a]\nb = 1\n\n[a.c.d]\ne = 2\n");
}

#[test]
fn apply_makes_a_table_for_a_path_of_two_segments() {
    let mut d = doc("");
    assert_eq!(apply_single_update_to_doc(&mut d, &path(&["a", "b"]), Some(Value::from(1))), Ok(()));
    assert_eq!(d.to_string(), "[a]\nb = 1\n");
}

#[test]
fn apply_puts_a_table_in_the_place_of_a_parent_value() {
    let mut d = doc("[a]\nb = 1\n");
    assert_eq!(
        apply_single_update_to_doc(&mut d, &path(&["a", "b", "c"]), Some(Value::from(1))),
        Ok(())
    );
    assert_eq!(d.to_string(), "[a]\n\n[a.b]\nc = 1\n");
}

#[test]
fn apply_puts_a_table_in_the_place_of_a_parent_array_of_tables() {
    let mut d = doc("[[a]]\nx = 1\n");
    assert_eq!(apply_single_update_to_doc(&mut d, &path(&["a", "b"]), Some(Value::from(1))), Ok(()));
    assert_eq!(d.to_string(), "[a]\nb = 1\n");
}

#[test]
fn apply_without_a_value_deletes() {
    let mut d = doc("[a]\nb = 1\nc = 2\n");
    assert_eq!(apply_single_update_to_doc(&mut d, &path(&["a", "b"]), None), Ok(()));
    assert_eq!(d.to_string(), "[a]\nc = 2\n");
}

#[test]
fn apply_twice_is_apply_once() {
    for (parts, value) in [
        (vec!["a", "b"], Some(Value::from(5))),
        (vec!["a", "x", "y"], Some(Value::from("s"))),
        (vec!["n", "e", "w", "t"], Some(Value::from(true))),
        (vec!["t"], Some(Value::from(1))),
        (vec!["a", "b"], None),
        (vec!["nothing", "here"], None),
    ] {
        let mut d = doc("top = 1\n\n[a]\nb = 1\n\n[t.sub]\nk = 1\n");
        apply_single_update_to_doc(&mut d, &path(&parts), value.clone()).unwrap();
        let once = d.to_string();
        apply_single_update_to_doc(&mut d, &path(&parts), value).unwrap();
        assert_eq!(d.to_string(), once);
    }
}

#[test]
fn apply_updates_goes_by_the_order_of_the_list() {
    let mut d = doc("");
    let updates = vec![
        update(0, &["k"], Some(Value::from(1))),
        update(1, &["k"], Some(Value::from(2))),
        update(2, &["j"], Some(Value::from(3))),
    ];
    assert_eq!(apply_updates(&mut d, updates), Ok(()));
    assert_eq!(d.to_string(), "k = 2\nj = 3\n");
}

#[test]
fn apply_updates_stops_at_an_empty_path() {
    let mut d = doc("");
    let updates = vec![
        update(0, &["k"], Some(Value::from(1))),
        update(1, &[], Some(Value::from(2))),
        update(2, &["j"], Some(Value::from(3))),
    ];
    assert_eq!(
        apply_updates(&mut d, updates),
        Err("Cannot apply update with an empty path".to_string())
    );
    assert_eq!(d.to_string(), "k = 1\n");
}

#[test]
fn apply_updates_with_no_update_changes_nothing() {
    let mut d = doc("# note\nk = 1\n");
    assert_eq!(apply_updates(&mut d, vec![]), Ok(()));
    assert_eq!(d.to_string(), "# note\nk = 1\n");
}

#[test]
fn echo_gives_the_text_back() {
    let text = "# top\n[a]\nb = 1 # one\n\n[[c]]\nd = [1, 2]\n";
    assert_eq!(echo_toml(text), Ok(text.to_string()));
}

#[test]
fn echo_twice_is_echo_once() {
    for text in ["", "a = 1", "  [x]  \n y   =   'z'  # c\n", "[a.b]\n[a]\nk = { i = 1 }\n"] {
        let once = echo_toml(text).unwrap();
        let twice = echo_toml(&once).unwrap();
        assert_eq!(twice, once);
    }
}

#[test]
fn echo_reports_the_parse_error() {
    let error = echo_toml("a = ").unwrap_err();
    assert_eq!(error, DocumentMut::from_str("a = ").unwrap_err().to_string());
    assert!(error.starts_with("TOML parse error at line 1, column 5"));
}

#[test]
fn patch_reports_a_document_that_does_not_parse() {
    let error = update_toml_values("a = ", "a", "1").unwrap_err();
    let reason = DocumentMut::from_str("a = ").unwrap_err().to_string();
    assert_eq!(error, format!("Failed to parse TOML: {}", reason));
}

#[test]
fn patch_reports_the_document_before_the_batch() {
    let error = update_toml_values("a = ", "a,b", "1").unwrap_err();
    assert!(error.starts_with("Failed to parse TOML: "));
}

#[test]
fn patch_reports_a_count_mismatch() {
    let error = update_toml_values("[t]\nk = 1\n", "a,b", "1").unwrap_err();
    assert_eq!(error, "Number of paths must match number of values");
}

#[test]
fn patch_reports_an_invalid_path() {
    let error = update_toml_values("", "ok,bad.", "1,2").unwrap_err();
    assert_eq!(error, "Path at index 1 ('bad.') is invalid or contains empty segments");
}

#[test]
fn patch_applies_the_deeper_path_first() {
    let result = update_toml_values("", "a.b.c,a.b", "1,2").unwrap();
    assert_eq!(result, "[a]\nb = 2\n");
    let result = update_toml_values("", "a.b,a.b.c", "2,1").unwrap();
    assert_eq!(result, "[a]\nb = 2\n");
}

#[test]
fn patch_applies_one_depth_in_the_order_given() {
    assert_eq!(update_toml_values("", "k,k", "1,2").unwrap(), "k = 2\n");
    assert_eq!(update_toml_values("", "k,k", "2,1").unwrap(), "k = 1\n");
    assert_eq!(update_toml_values("", "k,k", "1,$undefined").unwrap(), "");
}

#[test]
fn patch_deleting_from_an_empty_section_changes_nothing() {
    let result = update_toml_values("[section]\n", "key", "$undefined").unwrap();
    assert_eq!(result, "[section]\n");
    let text = "# kept\n[section] # as it is\n  a   = 1\n";
    assert_eq!(update_toml_values(text, "b,section.b,x.y", "$undefined,$undefined,$undefined"), echo_toml(text));
}

#[test]
fn patch_deletes_from_an_inline_table() {
    let result = update_toml_values("a = { b = 1, c = 2 }\nz = 3\n", "a.b", "$undefined").unwrap();
    let mut d = doc(&result);
    assert!(get_item_at_path_mut(&mut d, &path(&["a", "b"])).is_none());
    assert_eq!(d["a"]["c"].as_integer(), Some(2));
    assert_eq!(d["z"].as_integer(), Some(3));
}

#[test]
fn patch_makes_a_section_below_an_implicit_table() {
    let result = update_toml_values("[a.b.c]\nd = 1\n", "a.x.y", "1").unwrap();
    assert_eq!(result, "[a.b.c]\nd = 1\n\n[a.x]\ny = 1\n");
}

#[test]
fn patch_attaches_a_dotted_key() {
    let result = update_toml_values("[a]\nd = 1", "a.b.c", "1").unwrap();
    assert_eq!(result, "[a]\nd = 1\nb.c = 1\n");
}

#[test]
fn patch_puts_a_value_in_the_place_of_a_table() {
    let result = update_toml_values("[a.b.c]\nd = 1", "a.b", "1").unwrap();
    assert_eq!(result, "[a]\nb = 1\n");
}

#[test]
fn patch_updates_and_adds_sections() {
    let result = update_toml_values(
        "[section1]\nkey1 = \"value1\"\n\n[section2]\nkey2 = 42\n",
        "section1.key1,section2.key2,section3.new",
        "updated,99,3.14",
    )
    .unwrap();
    assert_eq!(
        result,
        "[section1]\nkey1 = \"updated\"\n\n[section2]\nkey2 = 99\n\n[section3]\nnew = 3.14\n"
    );
}

#[test]
fn patch_trims_the_items_of_the_value_list() {
    let result = update_toml_values("", "k", "  two words ").unwrap();
    assert_eq!(result, "k = \"two words\"\n");
    let result = update_toml_values("", "a,b", "x y ,  z").unwrap();
    assert_eq!(result, "a = \"x y\"\nb = \"z\"\n");
}

#[test]
fn patch_twice_is_patch_once_for_one_path() {
    for (paths, values) in [("a.b", "5"), ("a.x.y", "text"), ("p.q.r.s", "true"), ("a.b", "$undefined")] {
        let once = update_toml_values("[a]\nb = 1\nc = 2\n", paths, values).unwrap();
        let twice = update_toml_values(&once, paths, values).unwrap();
        assert_eq!(twice, once);
    }
}

#[test]
fn patch_twice_may_move_a_key_of_a_batch() {
    let once = update_toml_values("a = { c = 5 }\nz = 1\n", "a.c,a", "1,2").unwrap();
    assert_eq!(once, "a = 2\nz = 1\n");
    let twice = update_toml_values(&once, "a.c,a", "1,2").unwrap();
    assert_eq!(twice, "z = 1\na = 2\n");
}

#[test]
fn error_keeps_the_message_of_the_parser() {
    let cause = DocumentMut::from_str("a = ").unwrap_err();
    let text = cause.to_string();
    let error = TomlPatchError::from(cause);
    assert_eq!(error.to_string(), format!("TOML Patch Error: {}", text));
}
