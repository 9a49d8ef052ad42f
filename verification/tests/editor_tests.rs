use std::sync::Arc;

use editor::{all, delete, get, update, Field, Object, Type};
use editor::model::{Controller, Entry, Slot, Target};

fn field(name: &str, ty: Type) -> Field {
    Field { name: Arc::new(name.to_string()), ty, index: 0, array: 0 }
}

fn plain(data: u64) -> Entry {
    Entry { data, slots: Vec::new() }
}

fn with_ref(data: u64, name: &str, ty: Type, target: Target, cascade: bool, optional: bool) -> Entry {
    Entry {
        data,
        slots: vec![Slot { field: field(name, ty), target: Some(target), cascade, optional }],
    }
}

#[test]
fn helper_delete_first_of_three_remaps_old_last() {
    let mut items = vec!["a", "b", "c"];
    let r = delete(&mut items, Object(0));
    assert_eq!(r, Ok(Some(Object(2))));
    assert_eq!(items, vec!["c", "b"]);
}

#[test]
fn helper_delete_last_needs_no_remap() {
    let mut items = vec![1, 2, 3];
    let r = delete(&mut items, Object(2));
    assert_eq!(r, Ok(None));
    assert_eq!(items, vec![1, 2]);
}

#[test]
fn helper_delete_rejects_empty_and_out_of_range() {
    let mut empty: Vec<u8> = Vec::new();
    assert_eq!(delete(&mut empty, Object(0)), Err(()));
    let mut items = vec![1, 2];
    assert_eq!(delete(&mut items, Object(2)), Err(()));
    assert_eq!(items, vec![1, 2]);
}

#[test]
fn helper_update_and_get() {
    let mut items = vec![10u64, 20, 30];
    assert_eq!(update(&mut items, Object(1), &99), Ok(()));
    assert_eq!(items, vec![10, 99, 30]);
    assert_eq!(update(&mut items, Object(3), &7), Err(()));
    assert_eq!(get(&items, Object(1)), Ok(&99));
    assert_eq!(get(&items, Object(3)), Err(()));
}

#[test]
fn helper_all_is_dense_range() {
    let items = vec!["x", "y", "z"];
    assert_eq!(all(&items), vec![Object(0), Object(1), Object(2)]);
    let none: Vec<u8> = Vec::new();
    assert_eq!(all(&none), Vec::<Object>::new());
}

#[test]
fn insert_appends_at_old_length() {
    let mesh = Type("mesh");
    let mut c = Controller::new();
    c.add_table(mesh);
    assert_eq!(c.insert(mesh, plain(1)), Ok(Object(0)));
    assert_eq!(c.insert(mesh, plain(2)), Ok(Object(1)));
    assert_eq!(c.all(mesh), vec![Object(0), Object(1)]);
    assert_eq!(c.get(mesh, Object(0)).unwrap().data, 1);
    assert_eq!(c.get(mesh, Object(1)).unwrap().data, 2);
}

#[test]
fn insert_rejects_unknown_type_and_dangling_payload() {
    let mesh = Type("mesh");
    let light = Type("light");
    let mut c = Controller::new();
    c.add_table(mesh);
    assert_eq!(c.insert(light, plain(1)), Err(()));
    let bad = with_ref(2, "target", mesh, Target { table: 0, obj: 5 }, false, true);
    assert_eq!(c.insert(mesh, bad), Err(()));
    assert_eq!(c.all(mesh), Vec::<Object>::new());
}

#[test]
fn delete_without_references_swap_removes() {
    let mesh = Type("mesh");
    let mut c = Controller::new();
    c.add_table(mesh);
    c.insert(mesh, plain(10)).unwrap();
    c.insert(mesh, plain(20)).unwrap();
    c.insert(mesh, plain(30)).unwrap();
    // deleting index 0 moves the old last (index 2) into slot 0
    assert_eq!(c.delete(mesh, Object(0)), Ok(Some(Object(2))));
    assert_eq!(c.get(mesh, Object(0)).unwrap().data, 30);
    assert_eq!(c.get(mesh, Object(1)).unwrap().data, 20);
    assert_eq!(c.all(mesh), vec![Object(0), Object(1)]);
}

#[test]
fn delete_out_of_range_fails() {
    let mesh = Type("mesh");
    let mut c = Controller::new();
    c.add_table(mesh);
    assert_eq!(c.delete(mesh, Object(0)), Err(()));
    c.insert(mesh, plain(1)).unwrap();
    assert_eq!(c.delete(mesh, Object(1)), Err(()));
    assert_eq!(c.all(mesh), vec![Object(0)]);
}

#[test]
fn delete_blocked_by_plain_reference_changes_nothing() {
    let mesh = Type("mesh");
    let mut c = Controller::new();
    c.add_table(mesh);
    c.insert(mesh, plain(1)).unwrap();
    let holder = with_ref(2, "uses", mesh, Target { table: 0, obj: 0 }, false, false);
    c.insert(mesh, holder).unwrap();
    assert_eq!(c.delete(mesh, Object(0)), Err(()));
    assert_eq!(c.all(mesh), vec![Object(0), Object(1)]);
    assert_eq!(c.get(mesh, Object(0)).unwrap().data, 1);
    assert_eq!(c.get(mesh, Object(1)).unwrap().data, 2);
    assert_eq!(c.references_to(mesh, Object(0)).len(), 1);
}

#[test]
fn delete_with_optional_reference_clears_the_field() {
    let mesh = Type("mesh");
    let mut c = Controller::new();
    c.add_table(mesh);
    c.insert(mesh, plain(1)).unwrap();
    let holder = with_ref(2, "maybe", mesh, Target { table: 0, obj: 0 }, false, true);
    c.insert(mesh, holder).unwrap();
    // index 1 moves into slot 0; success, holder survives, field cleared
    assert_eq!(c.delete(mesh, Object(0)), Ok(Some(Object(1))));
    assert_eq!(c.all(mesh), vec![Object(0)]);
    assert_eq!(c.get(mesh, Object(0)).unwrap().data, 2);
    assert_eq!(c.get(mesh, Object(0)).unwrap().slots[0].target, None);
    assert_eq!(c.references_from(mesh, Object(0)).len(), 0);
}

#[test]
fn delete_cascades_transitively_and_leaves_no_dangling_reference() {
    let mesh = Type("mesh");
    let mut c = Controller::new();
    c.add_table(mesh);
    c.insert(mesh, plain(1)).unwrap();
    // object 1 cascades into object 0, object 2 cascades into object 1
    let b = with_ref(2, "part_of", mesh, Target { table: 0, obj: 0 }, true, false);
    c.insert(mesh, b).unwrap();
    let d = with_ref(3, "part_of", mesh, Target { table: 0, obj: 1 }, true, false);
    c.insert(mesh, d).unwrap();
    // a bystander without references
    c.insert(mesh, plain(4)).unwrap();
    let r = c.delete(mesh, Object(0));
    assert!(r.is_ok());
    // all three chained objects are gone, the bystander survives
    assert_eq!(c.all(mesh).len(), 1);
    let survivor = c.get(mesh, Object(0)).unwrap();
    assert_eq!(survivor.data, 4);
    assert_eq!(survivor.slots.len(), 0);
}

#[test]
fn delete_cascade_blocked_by_reference_into_chain_rolls_back() {
    let mesh = Type("mesh");
    let mut c = Controller::new();
    c.add_table(mesh);
    c.insert(mesh, plain(1)).unwrap();
    // object 1 cascades into 0, but object 2 holds a plain reference to 1
    let b = with_ref(2, "part_of", mesh, Target { table: 0, obj: 0 }, true, false);
    c.insert(mesh, b).unwrap();
    let guard = with_ref(3, "uses", mesh, Target { table: 0, obj: 1 }, false, false);
    c.insert(mesh, guard).unwrap();
    assert_eq!(c.delete(mesh, Object(0)), Err(()));
    assert_eq!(c.all(mesh).len(), 3);
    assert_eq!(c.get(mesh, Object(0)).unwrap().data, 1);
    assert_eq!(c.get(mesh, Object(1)).unwrap().data, 2);
    assert_eq!(c.get(mesh, Object(2)).unwrap().data, 3);
}

#[test]
fn delete_fixes_up_references_to_the_moved_object() {
    let mesh = Type("mesh");
    let mut c = Controller::new();
    c.add_table(mesh);
    c.insert(mesh, plain(1)).unwrap();
    c.insert(mesh, plain(2)).unwrap();
    c.insert(mesh, plain(4)).unwrap();
    let watcher = with_ref(3, "looks_at", mesh, Target { table: 0, obj: 2 }, false, false);
    c.insert(mesh, watcher).unwrap();
    // delete object 1: the last object (the watcher at index 3) moves to
    // index 1; its own reference to index 2 is untouched
    assert_eq!(c.delete(mesh, Object(1)), Ok(Some(Object(3))));
    assert_eq!(c.get(mesh, Object(1)).unwrap().data, 3);
    let refs = c.references_to(mesh, Object(2));
    assert_eq!(refs.len(), 1);
    assert_eq!(refs[0].from_obj, Object(1));
    assert_eq!(refs[0].to_obj, Object(2));
    assert_eq!(c.references_to(mesh, Object(3)).len(), 0);
}

#[test]
fn replace_redirects_inbound_references() {
    let mesh = Type("mesh");
    let mut c = Controller::new();
    c.add_table(mesh);
    c.insert(mesh, plain(1)).unwrap(); // X at 0
    c.insert(mesh, plain(2)).unwrap(); // Y at 1
    let holder = with_ref(3, "uses", mesh, Target { table: 0, obj: 0 }, false, false);
    c.insert(mesh, holder).unwrap(); // holder at 2
    // replace X (0) with Y (1): holder's reference must point at Y; X is gone
    let r = c.replace(mesh, Object(0), Object(1));
    assert_eq!(r, Ok(Some(Object(2))));
    // the old last (holder, index 2) moved into slot 0
    assert_eq!(c.all(mesh).len(), 2);
    assert_eq!(c.get(mesh, Object(0)).unwrap().data, 3);
    assert_eq!(c.get(mesh, Object(1)).unwrap().data, 2);
    // the holder's reference now targets Y (index 1)
    let refs = c.references_to(mesh, Object(1));
    assert_eq!(refs.len(), 1);
    assert_eq!(refs[0].from_obj, Object(0));
    assert_eq!(refs[0].to_obj, Object(1));
}

#[test]
fn replace_rejects_bad_arguments() {
    let mesh = Type("mesh");
    let mut c = Controller::new();
    c.add_table(mesh);
    c.insert(mesh, plain(1)).unwrap();
    assert_eq!(c.replace(mesh, Object(0), Object(0)), Err(()));
    assert_eq!(c.replace(mesh, Object(0), Object(1)), Err(()));
    assert_eq!(c.replace(mesh, Object(1), Object(0)), Err(()));
    assert_eq!(c.all(mesh), vec![Object(0)]);
}

#[test]
fn selection_follows_the_swap_remove_remap() {
    let mesh = Type("mesh");
    let mut c = Controller::new();
    c.add_table(mesh);
    c.insert(mesh, plain(1)).unwrap();
    c.insert(mesh, plain(2)).unwrap();
    c.insert(mesh, plain(3)).unwrap();
    c.select_multiple(mesh, &[Object(1), Object(2)]).unwrap();
    // delete 0: old index 2 becomes index 0; selection entry 2 must remap to 0
    assert_eq!(c.delete(mesh, Object(0)), Ok(Some(Object(2))));
    assert_eq!(c.multiple_selected(mesh), vec![Object(1), Object(0)]);
    assert_eq!(c.selected(mesh), Some(Object(0)));
}

#[test]
fn selection_drops_the_deleted_object() {
    let mesh = Type("mesh");
    let mut c = Controller::new();
    c.add_table(mesh);
    c.insert(mesh, plain(1)).unwrap();
    c.insert(mesh, plain(2)).unwrap();
    c.select_multiple(mesh, &[Object(0), Object(1)]).unwrap();
    assert_eq!(c.delete(mesh, Object(1)), Ok(None));
    assert_eq!(c.multiple_selected(mesh), vec![Object(0)]);
}

#[test]
fn select_multiple_is_idempotent_on_duplicates() {
    let mesh = Type("mesh");
    let mut c = Controller::new();
    c.add_table(mesh);
    c.insert(mesh, plain(1)).unwrap();
    c.insert(mesh, plain(2)).unwrap();
    c.select_multiple(mesh, &[Object(0)]).unwrap();
    c.select_multiple(mesh, &[Object(1), Object(0), Object(1)]).unwrap();
    assert_eq!(c.multiple_selected(mesh), vec![Object(0), Object(1)]);
}

#[test]
fn selection_order_and_primary() {
    let mesh = Type("mesh");
    let mut c = Controller::new();
    c.add_table(mesh);
    c.insert(mesh, plain(1)).unwrap();
    c.insert(mesh, plain(2)).unwrap();
    c.insert(mesh, plain(3)).unwrap();
    assert_eq!(c.selected(mesh), None);
    c.select_multiple(mesh, &[Object(2), Object(0)]).unwrap();
    assert_eq!(c.multiple_selected(mesh), vec![Object(2), Object(0)]);
    assert_eq!(c.selected(mesh), Some(Object(0)));
    c.deselect_multiple(mesh, &[Object(0), Object(1)]).unwrap();
    assert_eq!(c.multiple_selected(mesh), vec![Object(2)]);
    c.select(mesh, Object(1)).unwrap();
    assert_eq!(c.multiple_selected(mesh), vec![Object(1)]);
    c.select_none(mesh).unwrap();
    assert_eq!(c.multiple_selected(mesh), Vec::<Object>::new());
    assert_eq!(c.select(mesh, Object(9)), Err(()));
}

#[test]
fn references_cross_tables() {
    let mesh = Type("mesh");
    let light = Type("light");
    let mut c = Controller::new();
    c.add_table(mesh);
    c.add_table(light);
    c.insert(mesh, plain(1)).unwrap();
    let lamp = with_ref(2, "attached_to", mesh, Target { table: 0, obj: 0 }, false, true);
    c.insert(light, lamp).unwrap();
    let refs = c.references_to(mesh, Object(0));
    assert_eq!(refs.len(), 1);
    assert_eq!(refs[0].from_ty.0, "light");
    assert_eq!(refs[0].to_type.0, "mesh");
    assert_eq!(refs[0].field.name.as_str(), "attached_to");
    assert!(!refs[0].cascade);
    assert!(refs[0].optional);
    let out = c.references_from(light, Object(0));
    assert_eq!(out.len(), 1);
    assert_eq!(out[0].to_obj, Object(0));
    assert_eq!(c.references_from(mesh, Object(0)).len(), 0);
}

#[test]
fn delete_reference_clears_only_the_field() {
    let mesh = Type("mesh");
    let mut c = Controller::new();
    c.add_table(mesh);
    c.insert(mesh, plain(1)).unwrap();
    let holder = with_ref(2, "uses", mesh, Target { table: 0, obj: 0 }, false, false);
    c.insert(mesh, holder).unwrap();
    let refs = c.references_to(mesh, Object(0));
    assert_eq!(refs.len(), 1);
    assert_eq!(c.delete_reference(refs[0].clone()), Ok(()));
    assert_eq!(c.all(mesh).len(), 2);
    assert_eq!(c.references_to(mesh, Object(0)).len(), 0);
    // the reference value is now stale: a second delete fails
    assert_eq!(c.delete_reference(refs[0].clone()), Err(()));
    // and the formerly blocked deletion now goes through
    assert_eq!(c.delete(mesh, Object(0)), Ok(Some(Object(1))));
}

#[test]
fn update_replaces_in_place() {
    let mesh = Type("mesh");
    let mut c = Controller::new();
    c.add_table(mesh);
    c.insert(mesh, plain(1)).unwrap();
    c.insert(mesh, plain(2)).unwrap();
    assert_eq!(c.update(mesh, Object(0), plain(9)), Ok(()));
    assert_eq!(c.get(mesh, Object(0)).unwrap().data, 9);
    assert_eq!(c.get(mesh, Object(1)).unwrap().data, 2);
    assert_eq!(c.update(mesh, Object(5), plain(9)), Err(()));
    let bad = with_ref(3, "x", mesh, Target { table: 4, obj: 0 }, false, false);
    assert_eq!(c.update(mesh, Object(0), bad), Err(()));
    assert_eq!(c.get(mesh, Object(0)).unwrap().data, 9);
}

#[test]
fn types_and_fields_reflection() {
    let mesh = Type("mesh");
    let light = Type("light");
    let mut c = Controller::new();
    c.add_table(mesh);
    c.add_table(light);
    let tys = c.types();
    assert_eq!(tys.len(), 2);
    assert_eq!(tys[0].0, "mesh");
    assert_eq!(tys[1].0, "light");
    c.insert(mesh, plain(1)).unwrap();
    let holder = with_ref(2, "uses", mesh, Target { table: 0, obj: 0 }, true, false);
    c.insert(mesh, holder).unwrap();
    let fs = c.fields_of(mesh, Object(1));
    assert_eq!(fs.len(), 1);
    assert_eq!(fs[0].name.as_str(), "uses");
    assert_eq!(fs[0].index, 0);
    assert_eq!(fs[0].array, 0);
    assert_eq!(c.fields_of(mesh, Object(0)).len(), 0);
    assert_eq!(c.fields_of(light, Object(0)).len(), 0);
}
