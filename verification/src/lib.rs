//! A generic contract for editors: typed object tables addressed by dense
//! indices, cursor-free selection state, and cross-object references with
//! cascading-delete semantics.
//!
//! Objects live in per-[`Type`] tables and are addressed by [`Object`]
//! indices that stay valid only until the next compaction.  Deletion always
//! compacts with swap-remove: the last entry moves into the freed slot and
//! the caller receives the remap it must apply to every stored index.
//! The [`model`] module holds a concrete controller that realises the
//! contract: reference discovery, cascade resolution on delete, replacement,
//! and selection fix-up, each an atomic commit-or-rollback step.

use vstd::prelude::*;
use std::sync::Arc;

pub mod model;
pub mod selection;
pub mod engine;

verus! {

/// The type of an object.
/// This does not have to be unique for Rust types.
/// Dynamically typed objects should use the same id.
#[derive(Clone, Copy, Debug)]
pub struct Type(pub &'static str);

impl Type {
    /// The tag's name, the identity types are compared by.
    pub open spec fn name(self) -> Seq<char> {
        self.0@
    }
}

/// The object id: an index into the table of its type,
/// stable only until the next swap-remove compaction.
#[derive(Clone, Copy, Debug, PartialEq, Eq, Structural)]
pub struct Object(pub usize);

/// Field information.
#[derive(Clone, Debug)]
pub struct Field {
    /// The name of the field.
    pub name: Arc<String>,
    /// The type of the field.
    pub ty: Type,
    /// The index within an array, 0 for normal fields.
    pub index: usize,
    /// 0 for a normal named field, length for an array.
    pub array: usize,
}

/// Stores information about a reference.
#[derive(Clone, Debug)]
pub struct Reference {
    /// The type of the from object.
    pub from_ty: Type,
    /// The id of the from object.
    pub from_obj: Object,
    /// The type of the to object.
    pub to_type: Type,
    /// The id of the to object.
    pub to_obj: Object,
    /// Whether to delete objects using this reference.
    /// When `false`, deletion will be cancelled with an error,
    /// unless the reference is optional.
    pub cascade: bool,
    /// Whether to delete a reference without deleting the object itself.
    /// If `cascade` is `true`, then the object will be deleted anyway.
    pub optional: bool,
    /// The field that points to an object.
    pub field: Field,
}

/// A helper for `delete` implementations: swap-remove compaction.
///
/// Fails when the table is empty or `obj` is out of range, and then leaves
/// the table untouched.  On success the table shrinks by one; the returned
/// remap is `None` when `obj` was the last index, else `Some` of the old
/// last index, whose entry now lives at `obj`'s slot.
pub fn delete<T>(items: &mut Vec<T>, obj: Object) -> (r: Result<Option<Object>, ()>)
    ensures
        r is Err <==> obj.0 >= old(items)@.len(),
        r is Err ==> final(items)@ == old(items)@,
        r is Ok ==> final(items)@.len() == old(items)@.len() - 1,
        (r is Ok && obj.0 == old(items)@.len() - 1) ==> {
            &&& r == Ok::<Option<Object>, ()>(None)
            &&& final(items)@ == old(items)@.drop_last()
        },
        (r is Ok && obj.0 < old(items)@.len() - 1) ==> {
            &&& r == Ok::<Option<Object>, ()>(Some(Object((old(items)@.len() - 1) as usize)))
            &&& final(items)@ == old(items)@.update(obj.0 as int, old(items)@.last()).drop_last()
        },
{
    if obj.0 >= items.len() {
        return Err(());
    }

    let upd_obj = if obj.0 == items.len() - 1 {
        // The deleted object was last, no update needed.
        None
    } else {
        // Update references to the last object,
        // which now takes the place of the deleted object.
        Some(Object(items.len() - 1))
    };
    items.swap_remove(obj.0);
    Ok(upd_obj)
}

/// A helper for `update` implementations: replace the value stored at `obj`.
///
/// Fails when `obj` is out of range, and then leaves the table untouched.
pub fn update<T: Clone>(items: &mut Vec<T>, obj: Object, args: &T) -> (r: Result<(), ()>)
    ensures
        r is Err <==> obj.0 >= old(items)@.len(),
        r is Err ==> final(items)@ == old(items)@,
        r is Ok ==> exists|v: T|
            cloned::<T>(*args, v) && final(items)@ == old(items)@.update(obj.0 as int, v),
{
    if obj.0 >= items.len() {
        return Err(());
    }
    let val = args.clone();
    let ghost v0 = val;
    items[obj.0] = val;
    proof {
        assert(cloned::<T>(*args, v0));
        assert(items@ == old(items)@.update(obj.0 as int, v0));
    }
    Ok(())
}

/// A helper for `all` implementations: the dense range of live ids.
pub fn all<T>(items: &Vec<T>) -> (r: Vec<Object>)
    ensures
        r@.len() == items@.len(),
        forall|k: int| 0 <= k < r@.len() ==> r@[k] == Object(k as usize),
{
    let mut r: Vec<Object> = Vec::new();
    let mut i: usize = 0;
    while i < items.len()
        invariant
            i <= items@.len(),
            r@.len() == i,
            forall|k: int| 0 <= k < i ==> r@[k] == Object(k as usize),
        decreases items@.len() - i,
    {
        r.push(Object(i));
        i += 1;
    }
    r
}

/// A helper for `get` implementations: borrow the value stored at `obj`.
///
/// Fails exactly when `obj` is out of range for the current table length.
pub fn get<'a, T>(items: &'a Vec<T>, obj: Object) -> (r: Result<&'a T, ()>)
    ensures
        r is Ok <==> obj.0 < items@.len(),
        r matches Ok(v) ==> *v == items@[obj.0 as int],
{
    if obj.0 < items.len() {
        Ok(&items[obj.0])
    } else {
        Err(())
    }
}

} // verus!
