//! The concrete object model behind the editor contract: per-type tables of
//! entries, each entry a tagged payload with reference-holding field slots,
//! plus per-type selection state.

use vstd::prelude::*;
use std::sync::Arc;
use crate::{Field, Object, Type};

verus! {

/// Internal coordinates of an object: the index of its table and the
/// object id within that table.
#[derive(Clone, Copy, Debug, PartialEq, Eq, Structural)]
pub struct Target {
    /// Index of the table that holds the object.
    pub table: usize,
    /// Index of the object within that table.
    pub obj: usize,
}

/// One reference-holding field slot of an object.
#[derive(Clone, Debug)]
pub struct Slot {
    /// Reflection metadata of the field.
    pub field: Field,
    /// The object the field points at; `None` when the field is cleared.
    pub target: Option<Target>,
    /// Whether deleting the target also deletes the object holding this slot.
    pub cascade: bool,
    /// Whether this field may be cleared instead of blocking a deletion.
    pub optional: bool,
}

/// One object of a table: a tagged payload word standing for the
/// type-erased value, and the object's reference-holding fields.
#[derive(Clone, Debug)]
pub struct Entry {
    /// The payload, checked against the table's expected representation
    /// at the call boundary.
    pub data: u64,
    /// The reference-holding fields of this object.
    pub slots: Vec<Slot>,
}

/// A per-type object table together with its selection state.
pub struct Table {
    /// The type tag of every object in this table.
    pub ty: Type,
    /// The objects, densely indexed from 0.
    pub entries: Vec<Entry>,
    /// The ordered selection; the last element is the primary selection.
    pub selected: Vec<Object>,
}

/// The controller state: all tables of one editor.
pub struct Controller {
    /// One table per type tag.
    pub tables: Vec<Table>,
}

impl Controller {
    /// `t` denotes a live object.
    pub open spec fn target_in_range(self, t: Target) -> bool {
        t.table < self.tables@.len() && t.obj < self.tables@[t.table as int].entries@.len()
    }

    /// `(i, j, k)` names an existing slot.
    pub open spec fn valid_slot(self, i: int, j: int, k: int) -> bool {
        &&& 0 <= i < self.tables@.len()
        &&& 0 <= j < self.tables@[i].entries@.len()
        &&& 0 <= k < self.tables@[i].entries@[j].slots@.len()
    }

    /// The slot named by `(i, j, k)`.
    pub open spec fn slot_at(self, i: int, j: int, k: int) -> Slot {
        self.tables@[i].entries@[j].slots@[k]
    }

    /// Every stored reference denotes a live object: the object graph
    /// holds no dangling reference.
    pub open spec fn refs_in_range(self) -> bool {
        forall|i: int, j: int, k: int|
            self.valid_slot(i, j, k) && (#[trigger] self.slot_at(i, j, k)).target is Some
                ==> self.target_in_range(self.slot_at(i, j, k).target->0)
    }

    /// The selection of table `i` names live objects only and holds
    /// no duplicate entries.
    pub open spec fn sel_wf(self, i: int) -> bool {
        &&& forall|m: int|
            0 <= m < self.tables@[i].selected@.len()
                ==> (#[trigger] self.tables@[i].selected@[m]).0
                    < self.tables@[i].entries@.len()
        &&& forall|m: int, n: int|
            0 <= m < n < self.tables@[i].selected@.len()
                ==> self.tables@[i].selected@[m] != self.tables@[i].selected@[n]
    }

    /// Every table's selection is well formed.
    pub open spec fn selections_wf(self) -> bool {
        forall|i: int| 0 <= i < self.tables@.len() ==> #[trigger] self.sel_wf(i)
    }

    /// The controller invariant: no dangling reference, selections sound.
    pub open spec fn wf(self) -> bool {
        self.refs_in_range() && self.selections_wf()
    }

    /// `t` is the table the tag `ty` resolves to: the first table whose
    /// type name matches.
    pub open spec fn is_table_for(self, ty: Type, t: int) -> bool {
        &&& 0 <= t < self.tables@.len()
        &&& self.tables@[t].ty.name() == ty.name()
        &&& forall|j: int| 0 <= j < t ==> (#[trigger] self.tables@[j].ty).name() != ty.name()
    }

    /// No table matches the tag `ty`.
    pub open spec fn no_table_for(self, ty: Type) -> bool {
        forall|j: int|
            0 <= j < self.tables@.len() ==> (#[trigger] self.tables@[j].ty).name() != ty.name()
    }

    /// The table index the tag `ty` resolves to, or `None` when no table
    /// matches.
    pub open spec fn table_index(self, ty: Type) -> Option<int> {
        if exists|t: int| self.is_table_for(ty, t) {
            Some(choose|t: int| self.is_table_for(ty, t))
        } else {
            None
        }
    }

    /// At most one table index resolves a tag.
    pub proof fn lemma_table_for_unique(self, ty: Type, t1: int, t2: int)
        requires
            self.is_table_for(ty, t1),
            self.is_table_for(ty, t2),
        ensures
            t1 == t2,
    {
        if t1 < t2 {
            assert(self.tables@[t1].ty.name() != ty.name());
        } else if t2 < t1 {
            assert(self.tables@[t2].ty.name() != ty.name());
        }
    }

    /// A tag resolves to `t` exactly when `t` is the first matching table.
    pub proof fn lemma_table_index_is(self, ty: Type, t: int)
        requires
            self.is_table_for(ty, t),
        ensures
            self.table_index(ty) == Some(t),
    {
        let t2 = choose|t2: int| self.is_table_for(ty, t2);
        self.lemma_table_for_unique(ty, t, t2);
    }

    /// An empty controller, with no tables.
    pub fn new() -> (r: Controller)
        ensures
            r.tables@.len() == 0,
            r.wf(),
    {
        let r = Controller { tables: Vec::new() };
        proof {
            assert(r.refs_in_range()) by {
                assert(forall|i: int, j: int, k: int| !r.valid_slot(i, j, k));
            }
        }
        r
    }

    /// Adds an empty table for a type tag and returns its index.
    pub fn add_table(&mut self, ty: Type) -> (t: usize)
        requires
            old(self).wf(),
        ensures
            final(self).wf(),
            t == old(self).tables@.len(),
            final(self).tables@.len() == old(self).tables@.len() + 1,
            forall|i: int| 0 <= i < t ==> final(self).tables@[i] == old(self).tables@[i],
            final(self).tables@[t as int].ty == ty,
            final(self).tables@[t as int].entries@.len() == 0,
            final(self).tables@[t as int].selected@.len() == 0,
    {
        let t = self.tables.len();
        self.tables.push(Table { ty, entries: Vec::new(), selected: Vec::new() });
        proof {
            assert forall|i: int, j: int, k: int|
                self.valid_slot(i, j, k) && (#[trigger] self.slot_at(i, j, k)).target is Some
            implies self.target_in_range(self.slot_at(i, j, k).target->0) by {
                assert(old(self).valid_slot(i, j, k));
                assert(old(self).slot_at(i, j, k) == self.slot_at(i, j, k));
            }
            assert forall|i: int| 0 <= i < self.tables@.len() implies #[trigger] self.sel_wf(i) by {
                if i < t {
                    assert(old(self).sel_wf(i));
                }
            }
        }
        t
    }

    /// Resolves a type tag to its table index: the first table whose type
    /// name matches, or `None` when no table matches.
    pub fn find_table(&self, ty: Type) -> (r: Option<usize>)
        ensures
            r matches Some(t) ==> self.table_index(ty) == Some(t as int)
                && self.is_table_for(ty, t as int),
            r is None ==> self.table_index(ty) is None && self.no_table_for(ty),
    {
        let n = self.tables.len();
        let mut i: usize = 0;
        while i < n
            invariant
                n == self.tables@.len(),
                i <= n,
                forall|j: int| 0 <= j < i ==> (#[trigger] self.tables@[j].ty).name() != ty.name(),
            decreases n - i,
        {
            if str_eq(self.tables[i].ty.0, ty.0) {
                proof {
                    self.lemma_table_index_is(ty, i as int);
                }
                return Some(i);
            }
            i += 1;
        }
        proof {
            if exists|t: int| self.is_table_for(ty, t) {
                let t = choose|t: int| self.is_table_for(ty, t);
                assert(self.tables@[t].ty.name() != ty.name());
            }
        }
        None
    }
}

/// A change that leaves every table's entries alone and rewrites one
/// table's selection to another well-formed one preserves the controller
/// invariant.
pub proof fn lemma_wf_after_selected_change(pre: Controller, post: Controller, t: int)
    requires
        pre.wf(),
        0 <= t < pre.tables@.len(),
        post.tables@.len() == pre.tables@.len(),
        forall|i: int|
            0 <= i < pre.tables@.len() && i != t ==> post.tables@[i] == pre.tables@[i],
        post.tables@[t].ty == pre.tables@[t].ty,
        post.tables@[t].entries == pre.tables@[t].entries,
        post.sel_wf(t),
    ensures
        post.wf(),
{
    assert forall|i: int, j: int, k: int|
        post.valid_slot(i, j, k) && (#[trigger] post.slot_at(i, j, k)).target is Some
    implies post.target_in_range(post.slot_at(i, j, k).target->0) by {
        assert(pre.valid_slot(i, j, k));
        assert(pre.slot_at(i, j, k) == post.slot_at(i, j, k));
        assert(pre.target_in_range(pre.slot_at(i, j, k).target->0));
        let tg = pre.slot_at(i, j, k).target->0;
        assert(post.tables@[tg.table as int].entries@.len()
            == pre.tables@[tg.table as int].entries@.len());
    }
    assert forall|i: int| 0 <= i < post.tables@.len() implies #[trigger] post.sel_wf(i) by {
        if i != t {
            assert(pre.sel_wf(i));
        }
    }
}

impl Controller {
    /// Inserts a new object of a type, appended at the table's end, so the
    /// new id is the old table length.  Fails, changing nothing, when the
    /// type is unknown or the payload holds a reference to an object that
    /// does not exist.
    pub fn insert(&mut self, ty: Type, args: Entry) -> (r: Result<Object, ()>)
        requires
            old(self).wf(),
        ensures
            final(self).wf(),
            r is Err ==> *final(self) == *old(self),
            old(self).table_index(ty) is None ==> r is Err,
            old(self).table_index(ty) matches Some(t) ==> ({
                &&& (r is Err <==> exists|k: int|
                    0 <= k < args.slots@.len() && (#[trigger] args.slots@[k]).target is Some
                        && !old(self).target_in_range(args.slots@[k].target->0))
                &&& (r is Ok ==> {
                    &&& r == Ok::<Object, ()>(
                        Object(old(self).tables@[t].entries@.len() as usize),
                    )
                    &&& final(self).tables@.len() == old(self).tables@.len()
                    &&& forall|i: int|
                        0 <= i < old(self).tables@.len() && i != t
                            ==> final(self).tables@[i] == old(self).tables@[i]
                    &&& final(self).tables@[t].ty == old(self).tables@[t].ty
                    &&& final(self).tables@[t].selected == old(self).tables@[t].selected
                    &&& final(self).tables@[t].entries@ == old(self).tables@[t].entries@.push(
                        args,
                    )
                })
            }),
    {
        let t = match self.find_table(ty) {
            Some(t) => t,
            None => {
                return Err(());
            },
        };
        let ns = args.slots.len();
        let mut k: usize = 0;
        while k < ns
            invariant
                *self == *old(self),
                old(self).wf(),
                old(self).table_index(ty) == Some(t as int),
                t < self.tables@.len(),
                ns == args.slots@.len(),
                k <= ns,
                forall|m: int|
                    0 <= m < k ==> ((#[trigger] args.slots@[m]).target is Some
                        ==> old(self).target_in_range(args.slots@[m].target->0)),
            decreases ns - k,
        {
            if let Some(tg) = args.slots[k].target {
                let bad = tg.table >= self.tables.len()
                    || tg.obj >= self.tables[tg.table].entries.len();
                if bad {
                    proof {
                        assert((#[trigger] args.slots@[k as int]).target is Some
                            && !old(self).target_in_range(args.slots@[k as int].target->0));
                    }
                    return Err(());
                }
            }
            k += 1;
        }
        let id = self.tables[t].entries.len();
        self.tables[t].entries.push(args);
        proof {
            let pre = *old(self);
            let tt = t as int;
            assert(self.tables@ == pre.tables@.update(tt, self.tables@[tt]));
            assert(self.tables@[tt].entries@ == pre.tables@[tt].entries@.push(args));
            assert forall|i: int, j: int, kk: int|
                self.valid_slot(i, j, kk) && (#[trigger] self.slot_at(i, j, kk)).target is Some
            implies self.target_in_range(self.slot_at(i, j, kk).target->0) by {
                let tg = self.slot_at(i, j, kk).target->0;
                if i == tt && j == pre.tables@[tt].entries@.len() {
                    assert(self.slot_at(i, j, kk) == args.slots@[kk]);
                    assert(pre.target_in_range(tg));
                } else {
                    assert(pre.valid_slot(i, j, kk));
                    assert(self.slot_at(i, j, kk) == pre.slot_at(i, j, kk));
                    assert(pre.target_in_range(tg));
                }
                if tg.table as int == tt {
                    assert(self.tables@[tt].entries@.len()
                        == pre.tables@[tt].entries@.len() + 1);
                }
            }
            assert forall|i: int| 0 <= i < self.tables@.len() implies #[trigger] self.sel_wf(
                i,
            ) by {
                assert(pre.sel_wf(i));
                if i != tt {
                    assert(self.tables@[i] == pre.tables@[i]);
                }
            }
        }
        Ok(Object(id))
    }

    /// Replaces the payload of an object in place; the id does not change.
    /// Fails, changing nothing, when the type is unknown, the object does
    /// not exist, or the payload holds a reference to an object that does
    /// not exist.
    pub fn update(&mut self, ty: Type, obj: Object, args: Entry) -> (r: Result<(), ()>)
        requires
            old(self).wf(),
        ensures
            final(self).wf(),
            r is Err ==> *final(self) == *old(self),
            old(self).table_index(ty) is None ==> r is Err,
            old(self).table_index(ty) matches Some(t) ==> ({
                &&& (r is Err <==> (obj.0 >= old(self).tables@[t].entries@.len() || exists|k: int|
                    0 <= k < args.slots@.len() && (#[trigger] args.slots@[k]).target is Some
                        && !old(self).target_in_range(args.slots@[k].target->0)))
                &&& (r is Ok ==> {
                    &&& final(self).tables@.len() == old(self).tables@.len()
                    &&& forall|i: int|
                        0 <= i < old(self).tables@.len() && i != t
                            ==> final(self).tables@[i] == old(self).tables@[i]
                    &&& final(self).tables@[t].ty == old(self).tables@[t].ty
                    &&& final(self).tables@[t].selected == old(self).tables@[t].selected
                    &&& final(self).tables@[t].entries@ == old(self).tables@[t].entries@.update(
                        obj.0 as int,
                        args,
                    )
                })
            }),
    {
        let t = match self.find_table(ty) {
            Some(t) => t,
            None => {
                return Err(());
            },
        };
        if obj.0 >= self.tables[t].entries.len() {
            return Err(());
        }
        let ns = args.slots.len();
        let mut k: usize = 0;
        while k < ns
            invariant
                *self == *old(self),
                old(self).wf(),
                old(self).table_index(ty) == Some(t as int),
                t < self.tables@.len(),
                obj.0 < self.tables@[t as int].entries@.len(),
                ns == args.slots@.len(),
                k <= ns,
                forall|m: int|
                    0 <= m < k ==> ((#[trigger] args.slots@[m]).target is Some
                        ==> old(self).target_in_range(args.slots@[m].target->0)),
            decreases ns - k,
        {
            if let Some(tg) = args.slots[k].target {
                let bad = tg.table >= self.tables.len()
                    || tg.obj >= self.tables[tg.table].entries.len();
                if bad {
                    proof {
                        assert((#[trigger] args.slots@[k as int]).target is Some
                            && !old(self).target_in_range(args.slots@[k as int].target->0));
                    }
                    return Err(());
                }
            }
            k += 1;
        }
        self.tables[t].entries[obj.0] = args;
        proof {
            let pre = *old(self);
            let tt = t as int;
            let oo = obj.0 as int;
            assert(self.tables@ == pre.tables@.update(tt, self.tables@[tt]));
            assert(self.tables@[tt].entries@ == pre.tables@[tt].entries@.update(oo, args));
            assert forall|i: int, j: int, kk: int|
                self.valid_slot(i, j, kk) && (#[trigger] self.slot_at(i, j, kk)).target is Some
            implies self.target_in_range(self.slot_at(i, j, kk).target->0) by {
                let tg = self.slot_at(i, j, kk).target->0;
                if i == tt && j == oo {
                    assert(self.slot_at(i, j, kk) == args.slots@[kk]);
                    assert(pre.target_in_range(tg));
                } else {
                    assert(pre.valid_slot(i, j, kk));
                    assert(self.slot_at(i, j, kk) == pre.slot_at(i, j, kk));
                    assert(pre.target_in_range(tg));
                }
                assert(self.tables@[tg.table as int].entries@.len()
                    == pre.tables@[tg.table as int].entries@.len());
            }
            assert forall|i: int| 0 <= i < self.tables@.len() implies #[trigger] self.sel_wf(
                i,
            ) by {
                assert(pre.sel_wf(i));
                if i != tt {
                    assert(self.tables@[i] == pre.tables@[i]);
                } else {
                    assert(self.tables@[i].selected == pre.tables@[i].selected);
                    assert(self.tables@[i].entries@.len() == pre.tables@[i].entries@.len());
                }
            }
        }
        Ok(())
    }

    /// Borrows an object's value.  Fails exactly when the type is unknown
    /// or the object is out of range for the current table length.
    pub fn get(&self, ty: Type, obj: Object) -> (r: Result<&Entry, ()>)
        ensures
            self.table_index(ty) is None ==> r is Err,
            self.table_index(ty) matches Some(t) ==> {
                &&& (r is Ok <==> obj.0 < self.tables@[t].entries@.len())
                &&& (r matches Ok(e) ==> *e == self.entry_at(t, obj.0 as int))
            },
    {
        let t = match self.find_table(ty) {
            Some(t) => t,
            None => {
                return Err(());
            },
        };
        if obj.0 < self.tables[t].entries.len() {
            Ok(&self.tables[t].entries[obj.0])
        } else {
            Err(())
        }
    }

    /// All ids of a type: the dense range of its table, empty when the
    /// type is unknown.
    pub fn all(&self, ty: Type) -> (r: Vec<Object>)
        ensures
            self.table_index(ty) is None ==> r@.len() == 0,
            self.table_index(ty) matches Some(t) ==> r@.len()
                == self.tables@[t].entries@.len() && (forall|k: int|
                0 <= k < r@.len() ==> r@[k] == Object(k as usize)),
    {
        match self.find_table(ty) {
            Some(t) => crate::all(&self.tables[t].entries),
            None => Vec::new(),
        }
    }

    /// The type tags of all tables, in table order.
    pub fn types(&self) -> (r: Vec<Type>)
        ensures
            r@.len() == self.tables@.len(),
            forall|i: int| 0 <= i < r@.len() ==> r@[i] == self.tables@[i].ty,
    {
        let n = self.tables.len();
        let mut r: Vec<Type> = Vec::new();
        let mut i: usize = 0;
        while i < n
            invariant
                n == self.tables@.len(),
                i <= n,
                r@.len() == i,
                forall|k: int| 0 <= k < i ==> r@[k] == self.tables@[k].ty,
            decreases n - i,
        {
            r.push(self.tables[i].ty);
            i += 1;
        }
        r
    }

    /// The field metadata of one object's reference-holding fields, in slot
    /// order; empty when the type is unknown or the object does not exist.
    pub fn fields_of(&self, ty: Type, obj: Object) -> (r: Vec<Field>)
        ensures
            self.table_index(ty) is None ==> r@.len() == 0,
            self.table_index(ty) matches Some(t) ==> ({
                &&& (obj.0 < self.tables@[t].entries@.len() ==> r@.len()
                    == self.entry_at(t, obj.0 as int).slots@.len() && (forall|k: int|
                    0 <= k < r@.len() ==> r@[k] == self.entry_at(
                        t,
                        obj.0 as int,
                    ).slots@[k].field))
                &&& (obj.0 >= self.tables@[t].entries@.len() ==> r@.len() == 0)
            }),
    {
        let t = match self.find_table(ty) {
            Some(t) => t,
            None => {
                return Vec::new();
            },
        };
        if obj.0 >= self.tables[t].entries.len() {
            return Vec::new();
        }
        let ns = self.tables[t].entries[obj.0].slots.len();
        let mut r: Vec<Field> = Vec::new();
        let mut k: usize = 0;
        while k < ns
            invariant
                self.table_index(ty) == Some(t as int),
                t < self.tables@.len(),
                obj.0 < self.tables@[t as int].entries@.len(),
                ns == self.entry_at(t as int, obj.0 as int).slots@.len(),
                k <= ns,
                r@.len() == k,
                forall|m: int|
                    0 <= m < k ==> r@[m] == self.entry_at(t as int, obj.0 as int).slots@[m].field,
            decreases ns - k,
        {
            r.push(clone_field(&self.tables[t].entries[obj.0].slots[k].field));
            k += 1;
        }
        r
    }
}

/// An exact copy of field metadata.
pub(crate) fn clone_field(f: &Field) -> (r: Field)
    ensures
        r == *f,
{
    Field { name: arc_clone(&f.name), ty: f.ty, index: f.index, array: f.array }
}

/// Relies on `str`'s `PartialEq`: two string slices compare equal exactly
/// when their character sequences are equal.
#[verifier::external_body]
pub(crate) fn str_eq(a: &str, b: &str) -> (r: bool)
    ensures
        r == (a@ == b@),
{
    a == b
}

/// Relies on `Arc::clone`: the clone is the same shared value.
#[verifier::external_body]
pub(crate) fn arc_clone(a: &Arc<String>) -> (r: Arc<String>)
    ensures
        r == *a,
{
    Arc::clone(a)
}

} // verus!
