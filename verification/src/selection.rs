//! Selection store operations of the controller.
//!
//! Each type keeps an ordered selection; the last element is the primary
//! selection.  Adding is idempotent (no duplicate entries), removing a
//! non-selected object is a no-op, and every operation either commits
//! whole or leaves the controller untouched.

use vstd::prelude::*;
use crate::Object;
use crate::Type;
use crate::model::Controller;

verus! {

/// A sequence holds no element twice.
pub open spec fn no_dups(s: Seq<Object>) -> bool {
    forall|m: int, n: int| 0 <= m < n < s.len() ==> s[m] != s[n]
}

/// One additive selection step: append `o` unless it is already selected.
pub open spec fn sel_add1(sel: Seq<Object>, o: Object) -> Seq<Object> {
    if sel.contains(o) {
        sel
    } else {
        sel.push(o)
    }
}

/// Additive multi-selection: `objs` joined onto `sel` left to right,
/// each object appended only when not yet present.
pub open spec fn sel_add(sel: Seq<Object>, objs: Seq<Object>) -> Seq<Object>
    decreases objs.len(),
{
    if objs.len() == 0 {
        sel
    } else {
        sel_add(sel_add1(sel, objs[0]), objs.drop_first())
    }
}

/// `sel_add` over one more trailing object is one `sel_add1` step after
/// the rest.
pub proof fn lemma_sel_add_snoc(sel: Seq<Object>, objs: Seq<Object>, o: Object)
    ensures
        sel_add(sel, objs.push(o)) == sel_add1(sel_add(sel, objs), o),
    decreases objs.len(),
{
    if objs.len() == 0 {
        assert(objs.push(o)[0] == o);
        assert(objs.push(o).drop_first() =~= Seq::<Object>::empty());
        assert(sel_add(sel, objs.push(o))
            == sel_add(sel_add1(sel, o), objs.push(o).drop_first()));
        assert(sel_add(sel_add1(sel, o), objs.push(o).drop_first()) == sel_add1(sel, o));
    } else {
        assert(objs.push(o)[0] == objs[0]);
        assert(objs.push(o).drop_first() =~= objs.drop_first().push(o));
        assert(sel_add(sel, objs.push(o))
            == sel_add(sel_add1(sel, objs[0]), objs.drop_first().push(o)));
        lemma_sel_add_snoc(sel_add1(sel, objs[0]), objs.drop_first(), o);
        assert(sel_add(sel, objs) == sel_add(sel_add1(sel, objs[0]), objs.drop_first()));
    }
}

/// Idempotence of multi-selection: adding to a duplicate-free selection
/// keeps it duplicate-free, however often an object is named again.
pub proof fn lemma_sel_add_no_dups(sel: Seq<Object>, objs: Seq<Object>)
    requires
        no_dups(sel),
    ensures
        no_dups(sel_add(sel, objs)),
    decreases objs.len(),
{
    if objs.len() > 0 {
        let s1 = sel_add1(sel, objs[0]);
        assert forall|m: int, n: int| 0 <= m < n < s1.len() implies s1[m] != s1[n] by {
            if !sel.contains(objs[0]) && n == s1.len() - 1 {
                assert(s1[n] == objs[0]);
                assert(sel[m] == s1[m]);
                assert(!sel.contains(s1[n]));
            }
        }
        lemma_sel_add_no_dups(s1, objs.drop_first());
    }
}

/// Idempotence of multi-selection: adding only already-selected objects
/// changes nothing at all.
pub proof fn lemma_sel_add_already_selected(sel: Seq<Object>, objs: Seq<Object>)
    requires
        forall|i: int| 0 <= i < objs.len() ==> sel.contains(#[trigger] objs[i]),
    ensures
        sel_add(sel, objs) == sel,
    decreases objs.len(),
{
    if objs.len() > 0 {
        assert(sel.contains(objs[0]));
        assert forall|i: int| 0 <= i < objs.drop_first().len() implies
            sel.contains(#[trigger] objs.drop_first()[i]) by {
            assert(objs.drop_first()[i] == objs[i + 1]);
        }
        lemma_sel_add_already_selected(sel, objs.drop_first());
    }
}

/// Whether a selection sequence holds an object.
fn sel_contains(sel: &Vec<Object>, o: Object) -> (r: bool)
    ensures
        r == sel@.contains(o),
{
    let n = sel.len();
    let mut i: usize = 0;
    while i < n
        invariant
            n == sel@.len(),
            i <= n,
            forall|j: int| 0 <= j < i ==> sel@[j] != o,
        decreases n - i,
    {
        if sel[i] == o {
            return true;
        }
        i += 1;
    }
    false
}

impl Controller {
    /// Selects a single object: clears the selection of its type and
    /// makes `obj` the only entry.  Fails, changing nothing, when the
    /// type is unknown or the object does not exist.
    pub fn select(&mut self, ty: Type, obj: Object) -> (r: Result<(), ()>)
        requires
            old(self).wf(),
        ensures
            final(self).wf(),
            r is Err ==> *final(self) == *old(self),
            r is Err <==> (old(self).table_index(ty) is None
                || obj.0 >= old(self).tables@[old(self).table_index(ty)->0].entries@.len()),
            r is Ok ==> ({
                let t = old(self).table_index(ty)->0;
                &&& final(self).tables@.len() == old(self).tables@.len()
                &&& forall|i: int|
                    0 <= i < old(self).tables@.len() && i != t
                        ==> final(self).tables@[i] == old(self).tables@[i]
                &&& final(self).tables@[t].ty == old(self).tables@[t].ty
                &&& final(self).tables@[t].entries == old(self).tables@[t].entries
                &&& final(self).tables@[t].selected@ =~= seq![obj]
            }),
    {
        let t = match self.find_table(ty) {
            Some(t) => t,
            None => {
                return Err(());
            },
        };
        if obj.0 >= self.tables[t].entries.len() {
            return Err(());
        }
        let mut sel: Vec<Object> = Vec::new();
        sel.push(obj);
        self.tables[t].selected = sel;
        proof {
            assert(self.sel_wf(t as int));
            crate::model::lemma_wf_after_selected_change(*old(self), *self, t as int);
        }
        Ok(())
    }

    /// Adds objects to the selection of their type, in the given order,
    /// skipping objects that are already selected.  Fails, changing
    /// nothing, when the type is unknown or any object does not exist.
    pub fn select_multiple(&mut self, ty: Type, objs: &[Object]) -> (r: Result<(), ()>)
        requires
            old(self).wf(),
        ensures
            final(self).wf(),
            r is Err ==> *final(self) == *old(self),
            r is Err <==> (old(self).table_index(ty) is None
                || exists|k: int|
                    0 <= k < objs@.len()
                        && (#[trigger] objs@[k]).0
                            >= old(self).tables@[old(self).table_index(ty)->0].entries@.len()),
            r is Ok ==> ({
                let t = old(self).table_index(ty)->0;
                &&& final(self).tables@.len() == old(self).tables@.len()
                &&& forall|i: int|
                    0 <= i < old(self).tables@.len() && i != t
                        ==> final(self).tables@[i] == old(self).tables@[i]
                &&& final(self).tables@[t].ty == old(self).tables@[t].ty
                &&& final(self).tables@[t].entries == old(self).tables@[t].entries
                &&& final(self).tables@[t].selected@
                    == sel_add(old(self).tables@[t].selected@, objs@)
            }),
    {
        let t = match self.find_table(ty) {
            Some(t) => t,
            None => {
                return Err(());
            },
        };
        let len = self.tables[t].entries.len();
        let n = objs.len();
        let mut i: usize = 0;
        while i < n
            invariant
                *self == *old(self),
                old(self).wf(),
                n == objs@.len(),
                i <= n,
                t < old(self).tables@.len(),
                len == old(self).tables@[t as int].entries@.len(),
                old(self).table_index(ty) == Some(t as int),
                forall|k: int| 0 <= k < i ==> (#[trigger] objs@[k]).0 < len,
            decreases n - i,
        {
            if objs[i].0 >= len {
                proof {
                    assert((#[trigger] objs@[i as int]).0
                        >= old(self).tables@[t as int].entries@.len());
                }
                return Err(());
            }
            i += 1;
        }

        let ghost sel0 = old(self).tables@[t as int].selected@;
        proof {
            assert(old(self).sel_wf(t as int));
        }
        let mut sel: Vec<Object> = Vec::new();
        let mut i: usize = 0;
        while i < self.tables[t].selected.len()
            invariant
                t < self.tables@.len(),
                *self == *old(self),
                i <= sel0.len(),
                sel0 == self.tables@[t as int].selected@,
                sel@ == sel0.subrange(0, i as int),
            decreases sel0.len() - i,
        {
            sel.push(self.tables[t].selected[i]);
            proof {
                assert(sel@ =~= sel0.subrange(0, i + 1 as int));
            }
            i += 1;
        }
        proof {
            assert(sel0.subrange(0, sel0.len() as int) =~= sel0);
        }
        let mut i: usize = 0;
        while i < n
            invariant
                n == objs@.len(),
                i <= n,
                sel@ == sel_add(sel0, objs@.subrange(0, i as int)),
                no_dups(sel@),
                forall|m: int| 0 <= m < sel@.len() ==> (#[trigger] sel@[m]).0 < len,
                forall|k: int| 0 <= k < n ==> (#[trigger] objs@[k]).0 < len,
                no_dups(sel0),
                forall|m: int| 0 <= m < sel0.len() ==> (#[trigger] sel0[m]).0 < len,
            decreases n - i,
        {
            proof {
                assert(objs@.subrange(0, i as int).push(objs@[i as int])
                    =~= objs@.subrange(0, i + 1 as int));
                lemma_sel_add_snoc(sel0, objs@.subrange(0, i as int), objs@[i as int]);
            }
            if !sel_contains(&sel, objs[i]) {
                sel.push(objs[i]);
            }
            i += 1;
        }
        proof {
            assert(objs@.subrange(0, n as int) =~= objs@);
        }
        self.tables[t].selected = sel;
        proof {
            assert(self.sel_wf(t as int));
            crate::model::lemma_wf_after_selected_change(*old(self), *self, t as int);
        }
        Ok(())
    }

    /// Removes objects from the selection of their type; objects that are
    /// not selected are ignored.  Fails, changing nothing, only when the
    /// type is unknown.
    pub fn deselect_multiple(&mut self, ty: Type, objs: &[Object]) -> (r: Result<(), ()>)
        requires
            old(self).wf(),
        ensures
            final(self).wf(),
            r is Err ==> *final(self) == *old(self),
            r is Err <==> old(self).table_index(ty) is None,
            r is Ok ==> ({
                let t = old(self).table_index(ty)->0;
                &&& final(self).tables@.len() == old(self).tables@.len()
                &&& forall|i: int|
                    0 <= i < old(self).tables@.len() && i != t
                        ==> final(self).tables@[i] == old(self).tables@[i]
                &&& final(self).tables@[t].ty == old(self).tables@[t].ty
                &&& final(self).tables@[t].entries == old(self).tables@[t].entries
                &&& final(self).tables@[t].selected@
                    == old(self).tables@[t].selected@.filter(|o: Object| !objs@.contains(o))
            }),
    {
        let t = match self.find_table(ty) {
            Some(t) => t,
            None => {
                return Err(());
            },
        };
        let ghost sel0 = old(self).tables@[t as int].selected@;
        let ghost pred = |o: Object| !objs@.contains(o);
        proof {
            assert(old(self).sel_wf(t as int));
            reveal(Seq::filter);
        }
        let n = self.tables[t].selected.len();
        let mut keep: Vec<Object> = Vec::new();
        let mut i: usize = 0;
        while i < n
            invariant
                t < self.tables@.len(),
                *self == *old(self),
                n == sel0.len(),
                sel0 == self.tables@[t as int].selected@,
                i <= n,
                pred == (|o: Object| !objs@.contains(o)),
                keep@ == sel0.subrange(0, i as int).filter(pred),
            decreases n - i,
        {
            proof {
                let pre = sel0.subrange(0, i as int);
                assert(sel0.subrange(0, i + 1 as int).drop_last() =~= pre);
                assert(sel0.subrange(0, i + 1 as int).last() == sel0[i as int]);
                reveal(Seq::filter);
            }
            let cur = self.tables[t].selected[i];
            if !slice_contains(objs, cur) {
                keep.push(cur);
            }
            i += 1;
        }
        proof {
            assert(sel0.subrange(0, n as int) =~= sel0);
        }
        self.tables[t].selected = keep;
        proof {
            let fin = self.tables@[t as int].selected@;
            assert forall|m: int| 0 <= m < fin.len() implies
                (#[trigger] fin[m]).0 < self.tables@[t as int].entries@.len() by {
                assert(fin == sel0.filter(pred));
                lemma_filter_element_of(sel0, pred, m);
                let j = choose|j: int| 0 <= j < sel0.len() && sel0[j] == fin[m];
                assert(old(self).sel_wf(t as int));
                assert((#[trigger] sel0[j]).0 < old(self).tables@[t as int].entries@.len());
            }
            assert forall|m: int, nn: int| 0 <= m < nn < fin.len() implies fin[m] != fin[nn] by {
                lemma_filter_of_no_dups(sel0, pred);
            }
            assert(self.sel_wf(t as int));
            crate::model::lemma_wf_after_selected_change(*old(self), *self, t as int);
        }
        Ok(())
    }

    /// Clears the selection of one type.  Fails, changing nothing, only
    /// when the type is unknown.
    pub fn select_none(&mut self, ty: Type) -> (r: Result<(), ()>)
        requires
            old(self).wf(),
        ensures
            final(self).wf(),
            r is Err ==> *final(self) == *old(self),
            r is Err <==> old(self).table_index(ty) is None,
            r is Ok ==> ({
                let t = old(self).table_index(ty)->0;
                &&& final(self).tables@.len() == old(self).tables@.len()
                &&& forall|i: int|
                    0 <= i < old(self).tables@.len() && i != t
                        ==> final(self).tables@[i] == old(self).tables@[i]
                &&& final(self).tables@[t].ty == old(self).tables@[t].ty
                &&& final(self).tables@[t].entries == old(self).tables@[t].entries
                &&& final(self).tables@[t].selected@ =~= Seq::<Object>::empty()
            }),
    {
        let t = match self.find_table(ty) {
            Some(t) => t,
            None => {
                return Err(());
            },
        };
        self.tables[t].selected = Vec::new();
        proof {
            assert(self.sel_wf(t as int));
            crate::model::lemma_wf_after_selected_change(*old(self), *self, t as int);
        }
        Ok(())
    }

    /// The primary selection of a type: the most recently added entry,
    /// or `None` when nothing is selected or the type is unknown.
    pub fn selected(&self, ty: Type) -> (r: Option<Object>)
        ensures
            r == ({
                match self.table_index(ty) {
                    Some(t) => if self.tables@[t].selected@.len() == 0 {
                        None
                    } else {
                        Some(self.tables@[t].selected@.last())
                    },
                    None => None::<Object>,
                }
            }),
    {
        match self.find_table(ty) {
            Some(t) => {
                let n = self.tables[t].selected.len();
                if n == 0 {
                    None
                } else {
                    Some(self.tables[t].selected[n - 1])
                }
            },
            None => None,
        }
    }

    /// The full ordered selection of a type; empty when the type is
    /// unknown.
    pub fn multiple_selected(&self, ty: Type) -> (r: Vec<Object>)
        ensures
            r@ == ({
                match self.table_index(ty) {
                    Some(t) => self.tables@[t].selected@,
                    None => Seq::<Object>::empty(),
                }
            }),
    {
        match self.find_table(ty) {
            Some(t) => {
                let n = self.tables[t].selected.len();
                let mut r: Vec<Object> = Vec::new();
                let mut i: usize = 0;
                while i < n
                    invariant
                        n == self.tables@[t as int].selected@.len(),
                        t < self.tables@.len(),
                        i <= n,
                        r@ == self.tables@[t as int].selected@.subrange(0, i as int),
                    decreases n - i,
                {
                    r.push(self.tables[t].selected[i]);
                    proof {
                        assert(r@ =~= self.tables@[t as int].selected@.subrange(0, i + 1 as int));
                    }
                    i += 1;
                }
                proof {
                    assert(self.tables@[t as int].selected@.subrange(0, n as int)
                        =~= self.tables@[t as int].selected@);
                }
                r
            },
            None => Vec::new(),
        }
    }
}

/// Whether a slice of objects holds an object.
pub(crate) fn slice_contains(objs: &[Object], o: Object) -> (r: bool)
    ensures
        r == objs@.contains(o),
{
    let n = objs.len();
    let mut i: usize = 0;
    while i < n
        invariant
            n == objs@.len(),
            i <= n,
            forall|j: int| 0 <= j < i ==> objs@[j] != o,
        decreases n - i,
    {
        if objs[i] == o {
            return true;
        }
        i += 1;
    }
    false
}

/// Filtering keeps a duplicate-free sequence duplicate-free.
pub proof fn lemma_filter_of_no_dups(s: Seq<Object>, pred: spec_fn(Object) -> bool)
    requires
        no_dups(s),
    ensures
        no_dups(s.filter(pred)),
    decreases s.len(),
{
    reveal(Seq::filter);
    if s.len() > 0 {
        lemma_filter_of_no_dups(s.drop_last(), pred);
        let f = s.filter(pred);
        let fd = s.drop_last().filter(pred);
        if pred(s.last()) {
            assert(f == fd.push(s.last()));
            assert forall|m: int, n: int| 0 <= m < n < f.len() implies f[m] != f[n] by {
                if n == f.len() - 1 {
                    assert(f[n] == s.last());
                    assert(f[m] == fd[m]);
                    lemma_filter_element_of(s.drop_last(), pred, m);
                    let j = choose|j: int|
                        0 <= j < s.drop_last().len() && s.drop_last()[j] == fd[m];
                    assert(s[j] == fd[m]);
                    assert(s[j] != s[s.len() - 1]);
                }
            }
        }
    }
}

/// Every element of a filtered sequence stands somewhere in the sequence it
/// was filtered from.
pub proof fn lemma_filter_element_of(s: Seq<Object>, pred: spec_fn(Object) -> bool, m: int)
    requires
        0 <= m < s.filter(pred).len(),
    ensures
        s.contains(s.filter(pred)[m]),
    decreases s.len(),
{
    reveal(Seq::filter);
    if s.len() > 0 {
        let fd = s.drop_last().filter(pred);
        if m < fd.len() {
            lemma_filter_element_of(s.drop_last(), pred, m);
            let j = choose|j: int| 0 <= j < s.drop_last().len() && s.drop_last()[j] == fd[m];
            assert(s[j] == s.filter(pred)[m]);
        } else {
            assert(s.filter(pred)[m] == s.last());
            assert(s[s.len() - 1] == s.last());
        }
    }
}

} // verus!
