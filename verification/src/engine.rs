//! The deletion and replacement engine.
//!
//! Removing an object always compacts its table with swap-remove and fixes
//! every stored reference and every selection entry in the same step, so
//! the object graph never holds a dangling reference.  Deletion resolves
//! inbound references first: cascading ones doom their holder transitively,
//! optional ones are cleared, and any other inbound reference aborts the
//! whole operation before anything is changed.

use vstd::prelude::*;
use crate::{Field, Object, Reference, Type};
use crate::model::{Controller, Entry, Slot, Target};

verus! {

/// How one slot changes when the object at `gone` leaves its table and the
/// object at `moved` (the old last index) takes its place: a reference to
/// `gone` is redirected (or cleared when `redirect` is `None`), and a
/// reference to `moved` is re-indexed onto `gone`'s slot.
pub open spec fn fix_slot(s: Slot, gone: Target, moved: Target, redirect: Option<Target>) -> Slot {
    let t1 = if s.target == Some(gone) {
        redirect
    } else {
        s.target
    };
    let t2 = if t1 == Some(moved) {
        Some(gone)
    } else {
        t1
    };
    Slot { target: t2, ..s }
}

impl Controller {
    /// `(i, j)` names an existing entry.
    pub open spec fn valid_entry(self, i: int, j: int) -> bool {
        &&& 0 <= i < self.tables@.len()
        &&& 0 <= j < self.tables@[i].entries@.len()
    }

    /// The entry named by `(i, j)`.
    pub open spec fn entry_at(self, i: int, j: int) -> Entry {
        self.tables@[i].entries@[j]
    }

    /// Some live slot of an object other than the one at `tgt` holds a
    /// cascading reference to `tgt`.
    pub open spec fn has_cascade_into(self, tgt: Target) -> bool {
        exists|i: int, j: int, k: int|
            self.valid_slot(i, j, k) && (#[trigger] self.slot_at(i, j, k)).target == Some(tgt)
                && self.slot_at(i, j, k).cascade && !(i == tgt.table && j == tgt.obj)
    }

    /// Some live slot of an object other than the one at `tgt` holds a
    /// non-cascading, non-optional reference to `tgt`: deletion must fail.
    pub open spec fn has_blocking_into(self, tgt: Target) -> bool {
        exists|i: int, j: int, k: int|
            self.valid_slot(i, j, k) && (#[trigger] self.slot_at(i, j, k)).target == Some(tgt)
                && !self.slot_at(i, j, k).cascade && !self.slot_at(i, j, k).optional
                && !(i == tgt.table && j == tgt.obj)
    }
}

/// The exact effect of retiring the object `(t, o)`: every slot in every
/// table is rewritten by [`fix_slot`] for `gone = (t, o)` and `moved` the
/// old last index of table `t`; table `t` is compacted by swap-remove; the
/// selection of table `t` drops the removed id and re-indexes the moved
/// one.  Everything else — table count, types, payloads, slot counts, the
/// other selections — stays as it was.
pub open spec fn is_fixed_removal(
    pre: Controller,
    post: Controller,
    t: int,
    o: int,
    redirect: Option<Target>,
) -> bool {
    let l = pre.tables@[t].entries@.len() - 1;
    let gone = Target { table: t as usize, obj: o as usize };
    let moved = Target { table: t as usize, obj: l as usize };
    &&& post.tables@.len() == pre.tables@.len()
    &&& forall|i: int|
        0 <= i < post.tables@.len() ==> (#[trigger] post.tables@[i]).ty == pre.tables@[i].ty
    &&& forall|i: int|
        0 <= i < post.tables@.len() && i != t ==> {
            &&& (#[trigger] post.tables@[i]).entries@.len() == pre.tables@[i].entries@.len()
            &&& post.tables@[i].selected == pre.tables@[i].selected
        }
    &&& post.tables@[t].entries@.len() == l
    &&& forall|i: int, j: int|
        #![trigger post.entry_at(i, j)]
        post.valid_entry(i, j) ==> {
            let sj = if i == t && j == o {
                l
            } else {
                j
            };
            &&& post.entry_at(i, j).data == pre.entry_at(i, sj).data
            &&& post.entry_at(i, j).slots@.len() == pre.entry_at(i, sj).slots@.len()
            &&& forall|k: int|
                0 <= k < post.entry_at(i, j).slots@.len()
                    ==> #[trigger] post.slot_at(i, j, k)
                        == fix_slot(pre.slot_at(i, sj, k), gone, moved, redirect)
        }
    &&& post.tables@[t].selected@ == pre.tables@[t].selected@.filter(
        |x: Object| x.0 != o,
    ).map_values(
        |x: Object|
            if x.0 == l {
                Object(o as usize)
            } else {
                x
            },
    )
}

/// Retiring an object as [`is_fixed_removal`] describes keeps the
/// controller invariant, as long as any redirect target is itself live and
/// not the retired object.
pub proof fn lemma_fixed_removal_wf(
    pre: Controller,
    post: Controller,
    t: int,
    o: int,
    redirect: Option<Target>,
)
    requires
        pre.wf(),
        pre.tables@.len() <= usize::MAX,
        pre.tables@[t].entries@.len() <= usize::MAX,
        0 <= t < pre.tables@.len(),
        0 <= o < pre.tables@[t].entries@.len(),
        is_fixed_removal(pre, post, t, o, redirect),
        redirect matches Some(rd) ==> pre.target_in_range(rd)
            && !(rd.table == t && rd.obj == o),
    ensures
        post.wf(),
{
    let l = pre.tables@[t].entries@.len() - 1;
    let gone = Target { table: t as usize, obj: o as usize };
    let moved = Target { table: t as usize, obj: l as usize };
    assert forall|i: int, j: int, k: int|
        post.valid_slot(i, j, k) && (#[trigger] post.slot_at(i, j, k)).target is Some
    implies post.target_in_range(post.slot_at(i, j, k).target->0) by {
        assert(post.valid_entry(i, j));
        let sj = if i == t && j == o {
            l
        } else {
            j
        };
        assert(post.entry_at(i, j).slots@.len() == pre.entry_at(i, sj).slots@.len());
        assert(pre.valid_slot(i, sj, k));
        let s0 = pre.slot_at(i, sj, k);
        assert(post.slot_at(i, j, k) == fix_slot(s0, gone, moved, redirect));
        if s0.target is Some {
            assert(pre.target_in_range(s0.target->0));
        }
        let t1 = if s0.target == Some(gone) {
            redirect
        } else {
            s0.target
        };
        let t2 = if t1 == Some(moved) {
            Some(gone)
        } else {
            t1
        };
        assert(post.slot_at(i, j, k).target == t2);
        let tg = t2->0;
        if t1 == Some(moved) {
            // the slot is re-indexed onto the freed position
            if o == l {
                // then gone == moved, and neither branch can produce it
                assert(s0.target != Some(gone));
                assert(t1 == s0.target);
                assert(false);
            }
            assert(tg == gone && o < l);
            assert(post.target_in_range(tg));
        } else if s0.target == Some(gone) {
            // redirected; the redirect target is live and is not the old last
            let rd = redirect->0;
            assert(tg == rd);
            if rd.table as int == t {
                assert(rd != moved);
                assert(rd.obj < l);
            }
            assert(post.target_in_range(tg));
        } else {
            // untouched target: neither the removed nor the moved object
            assert(t2 == s0.target);
            if tg.table as int == t {
                assert(tg != moved);
                assert(tg.obj < l);
            }
            assert(post.target_in_range(tg));
        }
    }
    assert forall|i: int| 0 <= i < post.tables@.len() implies #[trigger] post.sel_wf(i) by {
        assert(pre.sel_wf(i));
        if i != t {
            assert(post.tables@[i].selected == pre.tables@[i].selected);
            assert(post.tables@[i].entries@.len() == pre.tables@[i].entries@.len());
        } else {
            let pred = |x: Object| x.0 != o;
            let mf = |x: Object|
                if x.0 == l {
                    Object(o as usize)
                } else {
                    x
                };
            let fs = pre.tables@[t].selected@.filter(pred);
            let sel = post.tables@[t].selected@;
            assert(sel == fs.map_values(mf));
            crate::selection::lemma_filter_of_no_dups(pre.tables@[t].selected@, pred);
            assert forall|m: int| 0 <= m < sel.len() implies
                (#[trigger] sel[m]).0 < post.tables@[t].entries@.len() by {
                crate::selection::lemma_filter_element_of(pre.tables@[t].selected@, pred, m);
                Seq::lemma_filter_pred(pre.tables@[t].selected@, pred, m);
                assert(sel[m] == mf(fs[m]));
            }
            assert forall|m: int, n: int| 0 <= m < n < sel.len() implies sel[m] != sel[n] by {
                crate::selection::lemma_filter_element_of(pre.tables@[t].selected@, pred, m);
                crate::selection::lemma_filter_element_of(pre.tables@[t].selected@, pred, n);
                Seq::lemma_filter_pred(pre.tables@[t].selected@, pred, m);
                Seq::lemma_filter_pred(pre.tables@[t].selected@, pred, n);
                assert(sel[m] == mf(fs[m]));
                assert(sel[n] == mf(fs[n]));
                assert(fs[m] != fs[n]);
            }
        }
    }
}

/// Deleting an object clears, rather than deletes, every field that
/// referenced it: after the removal, the slot that held the reference is
/// still there on its surviving holder, with its target set to `None`,
/// and only the removed object's table shrank, by exactly one.
pub proof fn lemma_optional_inbound_cleared(
    pre: Controller,
    post: Controller,
    t: int,
    o: int,
)
    requires
        0 <= t < pre.tables@.len(),
        0 <= o < pre.tables@[t].entries@.len(),
        is_fixed_removal(pre, post, t, o, None),
    ensures
        forall|i: int, j: int, k: int|
            #![trigger post.slot_at(i, j, k)]
            post.valid_slot(i, j, k) && pre.slot_at(
                i,
                if i == t && j == o {
                    pre.tables@[t].entries@.len() - 1
                } else {
                    j
                },
                k,
            ).target == Some(Target { table: t as usize, obj: o as usize })
                ==> post.slot_at(i, j, k).target is None,
        post.tables@[t].entries@.len() == pre.tables@[t].entries@.len() - 1,
        forall|i: int|
            0 <= i < post.tables@.len() && i != t ==> (#[trigger] post.tables@[i]).entries@.len()
                == pre.tables@[i].entries@.len(),
{
    let l = pre.tables@[t].entries@.len() - 1;
    let gone = Target { table: t as usize, obj: o as usize };
    let moved = Target { table: t as usize, obj: l as usize };
    assert forall|i: int, j: int, k: int|
        #![trigger post.slot_at(i, j, k)]
        post.valid_slot(i, j, k) && pre.slot_at(
            i,
            if i == t && j == o {
                l
            } else {
                j
            },
            k,
        ).target == Some(gone) implies post.slot_at(i, j, k).target is None by {
        let sj = if i == t && j == o {
            l
        } else {
            j
        };
        assert(post.valid_entry(i, j));
        assert(post.entry_at(i, j).slots@.len() == pre.entry_at(i, sj).slots@.len());
        assert(post.slot_at(i, j, k) == fix_slot(pre.slot_at(i, sj, k), gone, moved, None));
    }
}

/// The controllers agree on table count, types, selections, entry counts,
/// payloads and slot counts: only slot targets may differ.
pub open spec fn same_shape(a: Controller, b: Controller) -> bool {
    &&& b.tables@.len() == a.tables@.len()
    &&& forall|i: int|
        0 <= i < a.tables@.len() ==> {
            &&& (#[trigger] b.tables@[i]).ty == a.tables@[i].ty
            &&& b.tables@[i].selected == a.tables@[i].selected
            &&& b.tables@[i].entries@.len() == a.tables@[i].entries@.len()
        }
    &&& forall|i: int, j: int|
        a.valid_entry(i, j) ==> {
            &&& (#[trigger] b.entry_at(i, j)).data == a.entry_at(i, j).data
            &&& b.entry_at(i, j).slots@.len() == a.entry_at(i, j).slots@.len()
        }
}

/// Slots strictly before `(i, j, k)` in scan order are fixed, the rest are
/// untouched.
pub open spec fn fixed_upto(
    pre: Controller,
    cur: Controller,
    gone: Target,
    moved: Target,
    redirect: Option<Target>,
    i: int,
    j: int,
    k: int,
) -> bool {
    forall|a: int, b: int, c: int|
        pre.valid_slot(a, b, c) ==> #[trigger] cur.slot_at(a, b, c) == if a < i || (a == i && (b
            < j || (b == j && c < k))) {
            fix_slot(pre.slot_at(a, b, c), gone, moved, redirect)
        } else {
            pre.slot_at(a, b, c)
        }
}

/// Whether two optional targets are the same.
fn opt_target_eq(a: Option<Target>, b: Option<Target>) -> (r: bool)
    ensures
        r == (a == b),
{
    match (a, b) {
        (None, None) => true,
        (Some(x), Some(y)) => x.table == y.table && x.obj == y.obj,
        _ => false,
    }
}

impl Controller {
    /// Rewrites every slot of every table by [`fix_slot`].
    fn apply_slot_fix(&mut self, gone: Target, moved: Target, redirect: Option<Target>)
        ensures
            same_shape(*old(self), *final(self)),
            forall|a: int, b: int, c: int|
                old(self).valid_slot(a, b, c) ==> #[trigger] final(self).slot_at(a, b, c)
                    == fix_slot(old(self).slot_at(a, b, c), gone, moved, redirect),
    {
        let nt = self.tables.len();
        let mut i: usize = 0;
        while i < nt
            invariant
                nt == self.tables@.len(),
                i <= nt,
                same_shape(*old(self), *self),
                fixed_upto(*old(self), *self, gone, moved, redirect, i as int, 0, 0),
            decreases nt - i,
        {
            let ne = self.tables[i].entries.len();
            let mut j: usize = 0;
            while j < ne
                invariant
                    i < self.tables@.len(),
                    ne == self.tables@[i as int].entries@.len(),
                    j <= ne,
                    same_shape(*old(self), *self),
                    fixed_upto(*old(self), *self, gone, moved, redirect, i as int, j as int, 0),
                decreases ne - j,
            {
                let ns = self.tables[i].entries[j].slots.len();
                let mut k: usize = 0;
                while k < ns
                    invariant
                        i < self.tables@.len(),
                        j < self.tables@[i as int].entries@.len(),
                        ns == self.tables@[i as int].entries@[j as int].slots@.len(),
                        k <= ns,
                        same_shape(*old(self), *self),
                        fixed_upto(
                            *old(self),
                            *self,
                            gone,
                            moved,
                            redirect,
                            i as int,
                            j as int,
                            k as int,
                        ),
                    decreases ns - k,
                {
                    let st = self.tables[i].entries[j].slots[k].target;
                    let t1 = if opt_target_eq(st, Some(gone)) {
                        redirect
                    } else {
                        st
                    };
                    let t2 = if opt_target_eq(t1, Some(moved)) {
                        Some(gone)
                    } else {
                        t1
                    };
                    let ghost prev = *self;
                    self.tables[i].entries[j].slots[k].target = t2;
                    proof {
                        let pre = *old(self);
                        let ii = i as int;
                        let jj = j as int;
                        let kk = k as int;
                        assert(pre.tables@.len() == prev.tables@.len());
                        assert(prev.tables@[ii].entries@.len() == pre.tables@[ii].entries@.len());
                        assert(pre.valid_entry(ii, jj));
                        assert(prev.entry_at(ii, jj).slots@.len()
                            == pre.entry_at(ii, jj).slots@.len());
                        assert(pre.valid_slot(ii, jj, kk));
                        assert(prev.slot_at(ii, jj, kk) == pre.slot_at(ii, jj, kk));
                        assert(self.tables@ == prev.tables@.update(ii, self.tables@[ii]));
                        assert(self.tables@[ii].entries@ == prev.tables@[ii].entries@.update(
                            jj,
                            self.tables@[ii].entries@[jj],
                        ));
                        assert(self.tables@[ii].entries@[jj].slots@
                            == prev.tables@[ii].entries@[jj].slots@.update(
                            kk,
                            self.tables@[ii].entries@[jj].slots@[kk],
                        ));
                        assert(self.slot_at(ii, jj, kk) == (Slot {
                            target: t2,
                            ..prev.slot_at(ii, jj, kk)
                        }));
                        assert(self.slot_at(ii, jj, kk) == fix_slot(
                            pre.slot_at(ii, jj, kk),
                            gone,
                            moved,
                            redirect,
                        ));
                        assert forall|a: int, b: int, c: int|
                            pre.valid_slot(a, b, c) && !(a == ii && b == jj && c == kk)
                        implies #[trigger] self.slot_at(a, b, c) == prev.slot_at(a, b, c) by {
                            assert(prev.tables@[a].entries@.len()
                                == pre.tables@[a].entries@.len());
                            assert(prev.entry_at(a, b).slots@.len()
                                == pre.entry_at(a, b).slots@.len());
                            if a != ii {
                                assert(self.tables@[a] == prev.tables@[a]);
                            } else if b != jj {
                                assert(self.tables@[a].entries@[b]
                                    == prev.tables@[a].entries@[b]);
                            } else {
                                assert(self.tables@[a].entries@[b].slots@[c]
                                    == prev.tables@[a].entries@[b].slots@[c]);
                            }
                        }
                        assert forall|a: int| 0 <= a < pre.tables@.len() implies {
                            &&& (#[trigger] self.tables@[a]).ty == pre.tables@[a].ty
                            &&& self.tables@[a].selected == pre.tables@[a].selected
                            &&& self.tables@[a].entries@.len() == pre.tables@[a].entries@.len()
                        } by {
                            if a != ii {
                                assert(self.tables@[a] == prev.tables@[a]);
                            }
                        }
                        assert forall|a: int, b: int| pre.valid_entry(a, b) implies {
                            &&& (#[trigger] self.entry_at(a, b)).data == pre.entry_at(a, b).data
                            &&& self.entry_at(a, b).slots@.len() == pre.entry_at(a, b).slots@.len()
                        } by {
                            assert(prev.entry_at(a, b).data == pre.entry_at(a, b).data);
                            assert(prev.entry_at(a, b).slots@.len()
                                == pre.entry_at(a, b).slots@.len());
                            assert(prev.tables@[a].entries@.len()
                                == pre.tables@[a].entries@.len());
                            if a != ii {
                                assert(self.tables@[a] == prev.tables@[a]);
                            } else if b != jj {
                                assert(self.tables@[a].entries@[b]
                                    == prev.tables@[a].entries@[b]);
                            }
                        }
                        assert(same_shape(pre, *self));
                        assert(fixed_upto(pre, *self, gone, moved, redirect, ii, jj, kk + 1));
                    }
                    k += 1;
                }
                proof {
                    assert(self.entry_at(i as int, j as int).slots@.len() == ns);
                    assert(old(self).valid_entry(i as int, j as int));
                    assert(old(self).entry_at(i as int, j as int).slots@.len() == ns);
                    assert(fixed_upto(
                        *old(self),
                        *self,
                        gone,
                        moved,
                        redirect,
                        i as int,
                        j as int + 1,
                        0,
                    ));
                }
                j += 1;
            }
            proof {
                assert(old(self).tables@[i as int].entries@.len() == ne);
                assert(fixed_upto(
                    *old(self),
                    *self,
                    gone,
                    moved,
                    redirect,
                    i as int + 1,
                    0,
                    0,
                ));
            }
            i += 1;
        }
    }

    /// Retires the object `(t, o)`: fixes every slot, compacts table `t`
    /// with swap-remove and fixes the selection of table `t`.
    fn remove_at(&mut self, t: usize, o: usize, redirect: Option<Target>)
        requires
            old(self).wf(),
            t < old(self).tables@.len(),
            o < old(self).tables@[t as int].entries@.len(),
            redirect matches Some(rd) ==> old(self).target_in_range(rd)
                && !(rd.table == t && rd.obj == o),
        ensures
            final(self).wf(),
            is_fixed_removal(*old(self), *final(self), t as int, o as int, redirect),
    {
        let ghost pre = *old(self);
        let nt = self.tables.len();
        let l = self.tables[t].entries.len() - 1;
        let gone = Target { table: t, obj: o };
        let moved = Target { table: t, obj: l };
        self.apply_slot_fix(gone, moved, redirect);
        let ghost mid = *self;
        self.tables[t].entries.swap_remove(o);
        let ghost mid2 = *self;
        proof {
            assert(mid2.tables@ == mid.tables@.update(t as int, mid2.tables@[t as int]));
            assert(mid2.tables@[t as int].entries@ == mid.tables@[t as int].entries@.update(
                o as int,
                mid.tables@[t as int].entries@[l as int],
            ).drop_last());
        }

        let ghost sel0 = pre.tables@[t as int].selected@;
        let ghost predf = |x: Object| x.0 != o as int;
        let ghost mf = |x: Object|
            if x.0 == l as int {
                Object(o)
            } else {
                x
            };
        proof {
            assert(self.tables@[t as int].selected == pre.tables@[t as int].selected);
            reveal(Seq::filter);
        }
        let n = self.tables[t].selected.len();
        let mut keep: Vec<Object> = Vec::new();
        let mut m: usize = 0;
        while m < n
            invariant
                t < self.tables@.len(),
                *self == mid2,
                n == sel0.len(),
                sel0 == self.tables@[t as int].selected@,
                m <= n,
                predf == (|x: Object| x.0 != o as int),
                mf == (|x: Object|
                    if x.0 == l as int {
                        Object(o)
                    } else {
                        x
                    }),
                keep@ == sel0.subrange(0, m as int).filter(predf).map_values(mf),
            decreases n - m,
        {
            proof {
                let pre0 = sel0.subrange(0, m as int);
                let pre1 = sel0.subrange(0, m + 1 as int);
                assert(pre1.drop_last() =~= pre0);
                assert(pre1.last() == sel0[m as int]);
                reveal(Seq::filter);
                if predf(sel0[m as int]) {
                    assert(pre1.filter(predf) == pre0.filter(predf).push(sel0[m as int]));
                    assert(pre1.filter(predf).map_values(mf) =~= pre0.filter(predf).map_values(
                        mf,
                    ).push(mf(sel0[m as int])));
                } else {
                    assert(pre1.filter(predf) == pre0.filter(predf));
                }
            }
            let x = self.tables[t].selected[m];
            if x.0 != o {
                keep.push(if x.0 == l {
                    Object(o)
                } else {
                    x
                });
            }
            m += 1;
        }
        proof {
            assert(sel0.subrange(0, n as int) =~= sel0);
        }
        self.tables[t].selected = keep;
        proof {
            assert(self.tables@ == mid2.tables@.update(t as int, self.tables@[t as int]));
            assert(self.tables@[t as int].entries == mid2.tables@[t as int].entries);
            assert(is_fixed_removal(pre, *self, t as int, o as int, redirect)) by {
                assert forall|i: int, j: int|
                    #![trigger self.entry_at(i, j)]
                    self.valid_entry(i, j) implies {
                    let sj = if i == t && j == o {
                        l as int
                    } else {
                        j
                    };
                    &&& self.entry_at(i, j).data == pre.entry_at(i, sj).data
                    &&& self.entry_at(i, j).slots@.len() == pre.entry_at(i, sj).slots@.len()
                    &&& forall|k: int|
                        0 <= k < self.entry_at(i, j).slots@.len()
                            ==> #[trigger] self.slot_at(i, j, k)
                                == fix_slot(pre.slot_at(i, sj, k), gone, moved, redirect)
                } by {
                    let sj = if i == t && j == o {
                        l as int
                    } else {
                        j
                    };
                    assert(pre.valid_entry(i, sj));
                    assert(mid.entry_at(i, sj).data == pre.entry_at(i, sj).data);
                    assert(mid.entry_at(i, sj).slots@.len() == pre.entry_at(i, sj).slots@.len());
                    assert(self.entry_at(i, j) == mid.entry_at(i, sj));
                    assert forall|k: int| 0 <= k < self.entry_at(i, j).slots@.len() implies
                        #[trigger] self.slot_at(i, j, k)
                            == fix_slot(pre.slot_at(i, sj, k), gone, moved, redirect) by {
                        assert(pre.valid_slot(i, sj, k));
                        assert(mid.slot_at(i, sj, k)
                            == fix_slot(pre.slot_at(i, sj, k), gone, moved, redirect));
                        assert(self.slot_at(i, j, k) == mid.slot_at(i, sj, k));
                    }
                }
            }
            lemma_fixed_removal_wf(pre, *self, t as int, o as int, redirect);
        }
    }
}

/// How many objects of one table's mark row are marked for deletion.
pub open spec fn count_marked(row: Seq<bool>) -> nat
    decreases row.len(),
{
    if row.len() == 0 {
        0
    } else {
        count_marked(row.drop_last()) + (if row.last() {
            1nat
        } else {
            0
        })
    }
}

/// Overwriting one flag changes the count by exactly the difference.
pub proof fn lemma_count_update(row: Seq<bool>, j: int, v: bool)
    requires
        0 <= j < row.len(),
    ensures
        count_marked(row.update(j, v)) == count_marked(row) - (if row[j] {
            1nat
        } else {
            0
        }) + (if v {
            1nat
        } else {
            0
        }),
    decreases row.len(),
{
    if j == row.len() - 1 {
        assert(row.update(j, v).drop_last() =~= row.drop_last());
        assert(row.update(j, v).last() == v);
    } else {
        assert(row.update(j, v).drop_last() =~= row.drop_last().update(j, v));
        assert(row.update(j, v).last() == row.last());
        lemma_count_update(row.drop_last(), j, v);
    }
}

/// Swap-removing a marked slot, when the last flag is clear or is the slot
/// itself, lowers the count by exactly one.
pub proof fn lemma_count_swap_remove(row: Seq<bool>, j: int)
    requires
        0 <= j < row.len(),
        row[j],
        j < row.len() - 1 ==> !row[row.len() - 1],
    ensures
        count_marked(row.update(j, row.last()).drop_last()) == count_marked(row) - 1,
{
    let l = row.len() - 1;
    if j == l {
        assert(row.update(j, row.last()) =~= row);
        assert(count_marked(row) == count_marked(row.drop_last()) + 1);
    } else {
        assert(row.update(j, row.last()).drop_last() =~= row.drop_last().update(j, row[l]));
        lemma_count_update(row.drop_last(), j, row[l]);
        assert(count_marked(row) == count_marked(row.drop_last()));
    }
}

/// A row with two distinct marked slots counts at least two.
pub proof fn lemma_count_two(row: Seq<bool>, a: int, b: int)
    requires
        0 <= a < b < row.len(),
        row[a],
        row[b],
    ensures
        count_marked(row) >= 2,
    decreases row.len(),
{
    if b == row.len() - 1 {
        lemma_count_one(row.drop_last(), a);
    } else {
        lemma_count_two(row.drop_last(), a, b);
    }
}

/// A row with a marked slot counts at least one.
pub proof fn lemma_count_one(row: Seq<bool>, a: int)
    requires
        0 <= a < row.len(),
        row[a],
    ensures
        count_marked(row) >= 1,
    decreases row.len(),
{
    if a < row.len() - 1 {
        lemma_count_one(row.drop_last(), a);
    }
}

/// A row with no marked slot counts zero.
pub proof fn lemma_count_zero(row: Seq<bool>)
    requires
        forall|b: int| 0 <= b < row.len() ==> !row[b],
    ensures
        count_marked(row) == 0,
    decreases row.len(),
{
    if row.len() > 0 {
        lemma_count_zero(row.drop_last());
    }
}

/// The marks mirror the tables: one flag per live object.
pub open spec fn marks_aligned(c: Controller, marks: Vec<Vec<bool>>) -> bool {
    &&& marks@.len() == c.tables@.len()
    &&& forall|i: int|
        0 <= i < marks@.len() ==> (#[trigger] marks@[i])@.len() == c.tables@[i].entries@.len()
}

/// The object at `tg` is marked for deletion.
pub open spec fn marked(marks: Vec<Vec<bool>>, tg: Target) -> bool {
    marks@[tg.table as int]@[tg.obj as int]
}

/// Every holder of a cascading reference to `root`, other than the object
/// at `root` itself, is marked.
pub open spec fn cascade_holders_marked(c: Controller, marks: Vec<Vec<bool>>, root: Target) -> bool {
    forall|a: int, b: int, cc: int|
        c.valid_slot(a, b, cc) && (#[trigger] c.slot_at(a, b, cc)).target == Some(root)
            && c.slot_at(a, b, cc).cascade && !(a == root.table && b == root.obj)
            ==> marks@[a]@[b]
}

/// Every holder of a non-cascading, non-optional reference into the marked
/// set is itself marked.
pub open spec fn blocking_holders_marked(c: Controller, marks: Vec<Vec<bool>>) -> bool {
    forall|a: int, b: int, cc: int|
        c.valid_slot(a, b, cc) && (#[trigger] c.slot_at(a, b, cc)).target is Some && marked(
            marks,
            c.slot_at(a, b, cc).target->0,
        ) && !c.slot_at(a, b, cc).cascade && !c.slot_at(a, b, cc).optional ==> marks@[a]@[b]
}

/// No live slot points at a marked object.
pub open spec fn no_marked_targets(c: Controller, marks: Vec<Vec<bool>>) -> bool {
    forall|i: int, j: int, k: int|
        c.valid_slot(i, j, k) && (#[trigger] c.slot_at(i, j, k)).target is Some
            ==> !marked(marks, c.slot_at(i, j, k).target->0)
}

/// A slot rewrite that only clears targets or leaves them alone keeps the
/// controller invariant.
pub proof fn lemma_wf_clear_step(a: Controller, b: Controller, g: Target)
    requires
        a.wf(),
        same_shape(a, b),
        forall|i: int, j: int, k: int|
            a.valid_slot(i, j, k) ==> #[trigger] b.slot_at(i, j, k)
                == fix_slot(a.slot_at(i, j, k), g, g, None),
    ensures
        b.wf(),
{
    assert forall|i: int, j: int, k: int|
        b.valid_slot(i, j, k) && (#[trigger] b.slot_at(i, j, k)).target is Some
    implies b.target_in_range(b.slot_at(i, j, k).target->0) by {
        assert(a.tables@[i].entries@.len() == b.tables@[i].entries@.len());
        assert(a.entry_at(i, j).slots@.len() == b.entry_at(i, j).slots@.len());
        assert(a.valid_slot(i, j, k));
        assert(b.slot_at(i, j, k) == fix_slot(a.slot_at(i, j, k), g, g, None));
        let tg = b.slot_at(i, j, k).target->0;
        assert(a.slot_at(i, j, k).target == Some(tg));
        assert(a.target_in_range(tg));
        assert(b.tables@[tg.table as int].entries@.len()
            == a.tables@[tg.table as int].entries@.len());
    }
    assert forall|i: int| 0 <= i < b.tables@.len() implies #[trigger] b.sel_wf(i) by {
        assert(a.sel_wf(i));
        assert(b.tables@[i].selected == a.tables@[i].selected);
        assert(b.tables@[i].entries@.len() == a.tables@[i].entries@.len());
    }
}

/// `same_shape` is transitive.
pub proof fn lemma_same_shape_trans(a: Controller, b: Controller, c: Controller)
    requires
        same_shape(a, b),
        same_shape(b, c),
    ensures
        same_shape(a, c),
{
    assert forall|i: int, j: int| a.valid_entry(i, j) implies {
        &&& (#[trigger] c.entry_at(i, j)).data == a.entry_at(i, j).data
        &&& c.entry_at(i, j).slots@.len() == a.entry_at(i, j).slots@.len()
    } by {
        assert(b.entry_at(i, j).data == a.entry_at(i, j).data);
        assert(b.tables@[i].entries@.len() == a.tables@[i].entries@.len());
        assert(b.valid_entry(i, j));
        assert(c.entry_at(i, j).data == b.entry_at(i, j).data);
    }
}

impl Controller {
    /// Scans every live slot for references into `tgt` held by another
    /// object: whether any is cascading, and whether any is non-cascading
    /// and non-optional (which blocks deletion).
    fn scan_inbound(&self, tgt: Target) -> (r: (bool, bool))
        ensures
            r.0 == self.has_cascade_into(tgt),
            r.1 == self.has_blocking_into(tgt),
    {
        let mut casc = false;
        let mut block = false;
        let nt = self.tables.len();
        let mut i: usize = 0;
        while i < nt
            invariant
                nt == self.tables@.len(),
                i <= nt,
                casc ==> self.has_cascade_into(tgt),
                block ==> self.has_blocking_into(tgt),
                !casc ==> forall|a: int, b: int, c: int|
                    self.valid_slot(a, b, c) && a < i
                        && (#[trigger] self.slot_at(a, b, c)).target == Some(tgt)
                        && !(a == tgt.table && b == tgt.obj)
                        ==> !self.slot_at(a, b, c).cascade,
                !block ==> forall|a: int, b: int, c: int|
                    self.valid_slot(a, b, c) && a < i
                        && (#[trigger] self.slot_at(a, b, c)).target == Some(tgt)
                        && !(a == tgt.table && b == tgt.obj)
                        ==> (self.slot_at(a, b, c).cascade || self.slot_at(a, b, c).optional),
            decreases nt - i,
        {
            let ne = self.tables[i].entries.len();
            let mut j: usize = 0;
            while j < ne
                invariant
                    nt == self.tables@.len(),
                    i < nt,
                    ne == self.tables@[i as int].entries@.len(),
                    j <= ne,
                    casc ==> self.has_cascade_into(tgt),
                    block ==> self.has_blocking_into(tgt),
                    !casc ==> forall|a: int, b: int, c: int|
                        self.valid_slot(a, b, c) && (a < i || (a == i && b < j))
                            && (#[trigger] self.slot_at(a, b, c)).target == Some(tgt)
                            && !(a == tgt.table && b == tgt.obj)
                            ==> !self.slot_at(a, b, c).cascade,
                    !block ==> forall|a: int, b: int, c: int|
                        self.valid_slot(a, b, c) && (a < i || (a == i && b < j))
                            && (#[trigger] self.slot_at(a, b, c)).target == Some(tgt)
                            && !(a == tgt.table && b == tgt.obj)
                            ==> (self.slot_at(a, b, c).cascade || self.slot_at(
                                a,
                                b,
                                c,
                            ).optional),
                decreases ne - j,
            {
                let holder_is_tgt = i == tgt.table && j == tgt.obj;
                let ns = self.tables[i].entries[j].slots.len();
                let mut k: usize = 0;
                while k < ns
                    invariant
                        nt == self.tables@.len(),
                        i < nt,
                        ne == self.tables@[i as int].entries@.len(),
                        j < ne,
                        ns == self.tables@[i as int].entries@[j as int].slots@.len(),
                        k <= ns,
                        holder_is_tgt == (i == tgt.table && j == tgt.obj),
                        casc ==> self.has_cascade_into(tgt),
                        block ==> self.has_blocking_into(tgt),
                        !casc ==> forall|a: int, b: int, c: int|
                            self.valid_slot(a, b, c) && (a < i || (a == i && (b < j || (b == j
                                && c < k))))
                                && (#[trigger] self.slot_at(a, b, c)).target == Some(tgt)
                                && !(a == tgt.table && b == tgt.obj)
                                ==> !self.slot_at(a, b, c).cascade,
                        !block ==> forall|a: int, b: int, c: int|
                            self.valid_slot(a, b, c) && (a < i || (a == i && (b < j || (b == j
                                && c < k))))
                                && (#[trigger] self.slot_at(a, b, c)).target == Some(tgt)
                                && !(a == tgt.table && b == tgt.obj)
                                ==> (self.slot_at(a, b, c).cascade || self.slot_at(
                                    a,
                                    b,
                                    c,
                                ).optional),
                    decreases ns - k,
                {
                    let s = &self.tables[i].entries[j].slots[k];
                    if !holder_is_tgt && opt_target_eq(s.target, Some(tgt)) {
                        proof {
                            assert(self.valid_slot(i as int, j as int, k as int));
                            assert(self.slot_at(i as int, j as int, k as int) == *s);
                        }
                        if s.cascade {
                            casc = true;
                            proof {
                                assert(self.slot_at(i as int, j as int, k as int).target
                                    == Some(tgt) && self.slot_at(i as int, j as int, k as int)
                                    .cascade && !(i as int == tgt.table && j as int == tgt.obj));
                            }
                        } else if !s.optional {
                            block = true;
                            proof {
                                assert(self.slot_at(i as int, j as int, k as int).target
                                    == Some(tgt) && !self.slot_at(i as int, j as int, k as int)
                                    .cascade && !self.slot_at(i as int, j as int, k as int)
                                    .optional && !(i as int == tgt.table && j as int
                                    == tgt.obj));
                            }
                        }
                    }
                    k += 1;
                }
                j += 1;
            }
            i += 1;
        }
        proof {
            if !casc && self.has_cascade_into(tgt) {
                let (a, b, c): (int, int, int) = choose|a: int, b: int, c: int|
                    self.valid_slot(a, b, c) && (#[trigger] self.slot_at(a, b, c)).target
                        == Some(tgt) && self.slot_at(a, b, c).cascade && !(a == tgt.table && b
                        == tgt.obj);
                assert(!self.slot_at(a, b, c).cascade);
            }
            if !block && self.has_blocking_into(tgt) {
                let (a, b, c): (int, int, int) = choose|a: int, b: int, c: int|
                    self.valid_slot(a, b, c) && (#[trigger] self.slot_at(a, b, c)).target
                        == Some(tgt) && !self.slot_at(a, b, c).cascade && !self.slot_at(
                        a,
                        b,
                        c,
                    ).optional && !(a == tgt.table && b == tgt.obj);
                assert(self.slot_at(a, b, c).cascade || self.slot_at(a, b, c).optional);
            }
        }
        (casc, block)
    }

    /// Commits a validated cascade deletion: clears every reference into
    /// the doomed set, then removes the doomed objects, largest index
    /// first, so that pending positions never move.  Returns the remap of
    /// the directly addressed object's own removal.
    fn cascade_commit(
        &mut self,
        t: usize,
        o: usize,
        marks: Vec<Vec<bool>>,
        orig_len: usize,
    ) -> (r: Result<Option<Object>, ()>)
        requires
            old(self).wf(),
            t < old(self).tables@.len(),
            o < old(self).tables@[t as int].entries@.len(),
            marks_aligned(*old(self), marks),
            marks@[t as int]@[o as int] == true,
            orig_len == old(self).tables@[t as int].entries@.len(),
        ensures
            final(self).wf(),
            r is Ok,
            final(self).tables@.len() == old(self).tables@.len(),
            forall|i: int|
                0 <= i < old(self).tables@.len() ==> (#[trigger] final(self).tables@[i]).ty
                    == old(self).tables@[i].ty,
            forall|i: int|
                0 <= i < old(self).tables@.len() ==> (#[trigger] final(self).tables@[i]).entries@
                    .len() == old(self).tables@[i].entries@.len() - count_marked(marks@[i]@),
            final(self).tables@[t as int].entries@.len() < orig_len,
    {
        let ghost marks0 = marks;
        let mut marks = marks;
        let nt = self.tables.len();

        // clear every reference into the doomed set
        let mut i: usize = 0;
        while i < nt
            invariant
                nt == self.tables@.len(),
                i <= nt,
                self.wf(),
                same_shape(*old(self), *self),
                marks_aligned(*self, marks),
                marks@[t as int]@[o as int] == true,
                forall|a: int, b: int, c: int|
                    self.valid_slot(a, b, c) && (#[trigger] self.slot_at(a, b, c)).target is Some
                        && (self.slot_at(a, b, c).target->0).table < i
                        ==> !marked(marks, self.slot_at(a, b, c).target->0),
            decreases nt - i,
        {
            let rl = marks[i].len();
            let mut j: usize = 0;
            while j < rl
                invariant
                    nt == self.tables@.len(),
                    i < nt,
                    rl == marks@[i as int]@.len(),
                    j <= rl,
                    self.wf(),
                    same_shape(*old(self), *self),
                    marks_aligned(*self, marks),
                    marks@[t as int]@[o as int] == true,
                    forall|a: int, b: int, c: int|
                        self.valid_slot(a, b, c) && (#[trigger] self.slot_at(
                            a,
                            b,
                            c,
                        )).target is Some && ((self.slot_at(a, b, c).target->0).table < i || ((
                        self.slot_at(a, b, c).target->0).table == i && (self.slot_at(
                            a,
                            b,
                            c,
                        ).target->0).obj < j)) ==> !marked(marks, self.slot_at(a, b, c).target->0),
                decreases rl - j,
            {
                if marks[i][j] {
                    let g = Target { table: i, obj: j };
                    let ghost prev = *self;
                    self.apply_slot_fix(g, g, None);
                    proof {
                        lemma_same_shape_trans(*old(self), prev, *self);
                        lemma_wf_clear_step(prev, *self, g);
                        assert forall|a: int, b: int, c: int|
                            self.valid_slot(a, b, c) && (#[trigger] self.slot_at(
                                a,
                                b,
                                c,
                            )).target is Some implies self.slot_at(a, b, c).target
                            == prev.slot_at(a, b, c).target && prev.slot_at(a, b, c).target
                            != Some(g) by {
                            assert(prev.tables@[a].entries@.len()
                                == self.tables@[a].entries@.len());
                            assert(prev.entry_at(a, b).slots@.len()
                                == self.entry_at(a, b).slots@.len());
                            assert(prev.valid_slot(a, b, c));
                            assert(self.slot_at(a, b, c) == fix_slot(
                                prev.slot_at(a, b, c),
                                g,
                                g,
                                None,
                            ));
                        }
                        assert forall|a: int, b: int, c: int|
                            self.valid_slot(a, b, c) && (#[trigger] self.slot_at(
                                a,
                                b,
                                c,
                            )).target is Some && ((self.slot_at(a, b, c).target->0).table < i || ((
                            self.slot_at(a, b, c).target->0).table == i && (self.slot_at(
                                a,
                                b,
                                c,
                            ).target->0).obj < j + 1))
                        implies !marked(marks, self.slot_at(a, b, c).target->0) by {
                            let tg = self.slot_at(a, b, c).target->0;
                            assert(prev.tables@[a].entries@.len()
                                == self.tables@[a].entries@.len());
                            assert(prev.entry_at(a, b).slots@.len()
                                == self.entry_at(a, b).slots@.len());
                            assert(prev.valid_slot(a, b, c));
                            assert(self.slot_at(a, b, c).target == prev.slot_at(a, b, c).target);
                            assert(prev.slot_at(a, b, c).target != Some(g));
                            if tg.table == i && tg.obj == j {
                                assert(self.slot_at(a, b, c).target == Some(g));
                            } else {
                                assert((#[trigger] prev.slot_at(a, b, c)).target == Some(tg));
                            }
                        }
                    }
                } else {
                    proof {
                        assert(!marks@[i as int]@[j as int]);
                        assert forall|a: int, b: int, c: int|
                            self.valid_slot(a, b, c) && (#[trigger] self.slot_at(
                                a,
                                b,
                                c,
                            )).target is Some && ((self.slot_at(a, b, c).target->0).table < i || ((
                            self.slot_at(a, b, c).target->0).table == i && (self.slot_at(
                                a,
                                b,
                                c,
                            ).target->0).obj < j + 1))
                        implies !marked(marks, self.slot_at(a, b, c).target->0) by {
                            let tg = self.slot_at(a, b, c).target->0;
                            if !(tg.table == i && tg.obj == j) {
                                assert((tg.table < i || (tg.table == i && tg.obj < j)));
                            }
                        }
                    }
                }
                j += 1;
            }
            proof {
                assert forall|a: int, b: int, c: int|
                    self.valid_slot(a, b, c) && (#[trigger] self.slot_at(a, b, c)).target is Some
                        && (self.slot_at(a, b, c).target->0).table < i + 1
                implies !marked(marks, self.slot_at(a, b, c).target->0) by {
                    let tg = self.slot_at(a, b, c).target->0;
                    assert(self.target_in_range(tg));
                    if tg.table == i {
                        assert(tg.obj < self.tables@[i as int].entries@.len());
                        assert(tg.obj < rl);
                    }
                }
            }
            i += 1;
        }
        proof {
            assert(no_marked_targets(*self, marks)) by {
                assert forall|a: int, b: int, c: int|
                    self.valid_slot(a, b, c) && (#[trigger] self.slot_at(a, b, c)).target is Some
                implies !marked(marks, self.slot_at(a, b, c).target->0) by {
                    let tg = self.slot_at(a, b, c).target->0;
                    assert(self.target_in_range(tg));
                }
            }
        }

        // remove the doomed objects, per table, largest index first
        let ghost cleared = *self;
        let mut rem: Option<Object> = None;
        let mut i: usize = 0;
        while i < nt
            invariant
                nt == self.tables@.len(),
                t < nt,
                i <= nt,
                self.wf(),
                nt == old(self).tables@.len(),
                forall|a: int|
                    0 <= a < nt ==> (#[trigger] self.tables@[a]).ty == old(self).tables@[a].ty,
                marks_aligned(*self, marks),
                no_marked_targets(*self, marks),
                marks@.len() == nt,
                forall|a: int|
                    0 <= a < nt ==> self.tables@[a].entries@.len() - count_marked(
                        (#[trigger] marks@[a])@,
                    ) == old(self).tables@[a].entries@.len() - count_marked(marks0@[a]@),
                forall|a: int| 0 <= a < i ==> count_marked((#[trigger] marks@[a])@) == 0,
                orig_len == old(self).tables@[t as int].entries@.len(),
                (marks@[t as int]@[o as int] == true && o < marks@[t as int]@.len()
                    && self.tables@[t as int].entries@.len() == orig_len)
                    || self.tables@[t as int].entries@.len() < orig_len,
                i > t ==> self.tables@[t as int].entries@.len() < orig_len,
            decreases nt - i,
        {
            let mut go = true;
            while go
                invariant
                    nt == self.tables@.len(),
                    t < nt,
                    i < nt,
                    self.wf(),
                    nt == old(self).tables@.len(),
                    forall|a: int|
                        0 <= a < nt ==> (#[trigger] self.tables@[a]).ty
                            == old(self).tables@[a].ty,
                    marks_aligned(*self, marks),
                    no_marked_targets(*self, marks),
                    marks@.len() == nt,
                    forall|a: int|
                        0 <= a < nt ==> self.tables@[a].entries@.len() - count_marked(
                            (#[trigger] marks@[a])@,
                        ) == old(self).tables@[a].entries@.len() - count_marked(marks0@[a]@),
                    forall|a: int| 0 <= a < i ==> count_marked((#[trigger] marks@[a])@) == 0,
                    orig_len == old(self).tables@[t as int].entries@.len(),
                    (marks@[t as int]@[o as int] == true && o < marks@[t as int]@.len()
                        && self.tables@[t as int].entries@.len() == orig_len)
                        || self.tables@[t as int].entries@.len() < orig_len,
                    i > t ==> self.tables@[t as int].entries@.len() < orig_len,
                    !go ==> forall|b: int|
                        0 <= b < marks@[i as int]@.len() ==> !marks@[i as int]@[b],
                decreases self.tables@[i as int].entries@.len() + (if go {
                    1int
                } else {
                    0int
                }),
            {
                let rl = marks[i].len();
                let mut found = false;
                let mut s: usize = rl;
                while s > 0 && !found
                    invariant
                        rl == marks@[i as int]@.len(),
                        i < nt,
                        nt == marks@.len(),
                        s <= rl,
                        !found ==> forall|b: int| s <= b < rl ==> !marks@[i as int]@[b],
                        found ==> s < rl && marks@[i as int]@[s as int] && (forall|b: int|
                            s < b < rl ==> !marks@[i as int]@[b]),
                    decreases s,
                {
                    s -= 1;
                    if marks[i][s] {
                        found = true;
                    }
                }
                let idx = s;
                if !found {
                    go = false;
                    proof {
                        assert(s == 0);
                        assert(forall|b: int|
                            0 <= b < marks@[i as int]@.len() ==> !marks@[i as int]@[b]);
                    }
                } else {
                    let cur_len = self.tables[i].entries.len();
                    let ghost l = cur_len - 1;
                    if i == t && idx == o {
                        rem = if idx == cur_len - 1 {
                            None
                        } else {
                            Some(Object(cur_len - 1))
                        };
                    }
                    let ghost prev_c = *self;
                    let ghost prev_m = marks;
                    self.remove_at(i, idx, None);
                    marks[i].swap_remove(idx);
                    proof {
                        let ii = i as int;
                        let ix = idx as int;
                        let gone = Target { table: i, obj: idx };
                        let moved = Target { table: i, obj: l as usize };
                        assert(is_fixed_removal(prev_c, *self, ii, ix, None));
                        assert(marks@ == prev_m@.update(ii, marks@[ii]));
                        assert(marks@[ii]@ == prev_m@[ii]@.update(
                            ix,
                            prev_m@[ii]@[l],
                        ).drop_last());
                        assert(prev_m@[ii]@[l] == prev_m@[ii]@.last());
                        lemma_count_swap_remove(prev_m@[ii]@, ix);
                        assert(count_marked(marks@[ii]@) == count_marked(prev_m@[ii]@) - 1);
                        assert forall|a: int| 0 <= a < nt implies self.tables@[a].entries@.len()
                            - count_marked((#[trigger] marks@[a])@) == old(self).tables@[a]
                            .entries@.len() - count_marked(marks0@[a]@) by {
                            assert(prev_c.tables@[a].entries@.len() - count_marked(prev_m@[a]@)
                                == old(self).tables@[a].entries@.len() - count_marked(
                                marks0@[a]@,
                            ));
                            if a != ii {
                                assert(marks@[a] == prev_m@[a]);
                                assert(self.tables@[a].entries@.len()
                                    == prev_c.tables@[a].entries@.len());
                            } else {
                                assert(self.tables@[a].entries@.len()
                                    == prev_c.tables@[a].entries@.len() - 1);
                            }
                        }
                        assert forall|a: int| 0 <= a < i implies count_marked(
                            (#[trigger] marks@[a])@,
                        ) == 0 by {
                            assert(marks@[a] == prev_m@[a]);
                        }
                        assert forall|a: int| 0 <= a < marks@.len() implies (#[trigger] marks@[a])@
                            .len() == self.tables@[a].entries@.len() by {
                            if a != ii {
                                assert(marks@[a] == prev_m@[a]);
                                assert(self.tables@[a].entries@.len()
                                    == prev_c.tables@[a].entries@.len());
                            }
                        }
                        assert forall|a: int, b: int, c: int|
                            self.valid_slot(a, b, c) && (#[trigger] self.slot_at(
                                a,
                                b,
                                c,
                            )).target is Some implies !marked(
                            marks,
                            self.slot_at(a, b, c).target->0,
                        ) by {
                            assert(self.valid_entry(a, b));
                            let sb = if a == ii && b == ix {
                                l
                            } else {
                                b
                            };
                            assert(self.entry_at(a, b).slots@.len() == prev_c.entry_at(
                                a,
                                sb,
                            ).slots@.len());
                            assert(prev_c.valid_slot(a, sb, c));
                            assert(self.slot_at(a, b, c) == fix_slot(
                                prev_c.slot_at(a, sb, c),
                                gone,
                                moved,
                                None,
                            ));
                            let s0 = prev_c.slot_at(a, sb, c);
                            if s0.target == Some(gone) {
                                assert(self.slot_at(a, b, c).target is None);
                            } else if s0.target == Some(moved) {
                                assert(!marked(prev_m, moved));
                                assert(prev_m@[ii]@[l] == false);
                                assert(self.slot_at(a, b, c).target == Some(gone));
                                assert(marks@[ii]@[ix] == false);
                            } else {
                                let tg = s0.target->0;
                                assert(self.slot_at(a, b, c).target == Some(tg));
                                assert(!marked(prev_m, tg));
                                assert(prev_c.target_in_range(tg));
                                if tg.table as int == ii {
                                    assert(tg.obj != idx && tg.obj as int != l);
                                    assert(tg.obj < l);
                                    assert(marks@[ii]@[tg.obj as int]
                                        == prev_m@[ii]@[tg.obj as int]);
                                }
                            }
                        }
                        if ii == t as int {
                            assert(prev_c.tables@[t as int].entries@.len() <= orig_len);
                            assert(self.tables@[t as int].entries@.len()
                                == prev_c.tables@[t as int].entries@.len() - 1);
                            if prev_c.tables@[t as int].entries@.len() == orig_len
                                && prev_m@[t as int]@[o as int] && o < prev_m@[t as int]@.len() {
                                if ix != o as int {
                                    assert(o < idx);
                                    assert(marks@[t as int]@[o as int]
                                        == prev_m@[t as int]@[o as int]);
                                    assert(o < marks@[t as int]@.len());
                                }
                            }
                            assert(self.tables@[t as int].entries@.len() < orig_len);
                        } else {
                            assert(marks@[t as int] == prev_m@[t as int]);
                            assert(self.tables@[t as int].entries@.len()
                                == prev_c.tables@[t as int].entries@.len());
                        }
                    }
                }
            }
            proof {
                if i == t {
                    assert(!marks@[t as int]@[o as int] || o >= marks@[t as int]@.len());
                    assert(self.tables@[t as int].entries@.len() < orig_len);
                }
                lemma_count_zero(marks@[i as int]@);
            }
            i += 1;
        }
        proof {
            assert forall|a: int| 0 <= a < nt implies (#[trigger] self.tables@[a]).entries@.len()
                == old(self).tables@[a].entries@.len() - count_marked(marks0@[a]@) by {
                assert(count_marked(marks@[a]@) == 0);
            }
        }
        Ok(rem)
    }

    /// Deletes an object.
    ///
    /// Fails, changing nothing, when the type is unknown, the object does
    /// not exist, or a non-cascading, non-optional inbound reference blocks
    /// the deletion.  Otherwise every holder of a cascading reference to
    /// the object is deleted too, transitively; optional inbound references
    /// are cleared; the table is compacted with swap-remove; and the
    /// selection is fixed up.  The returned remap is `None` when the object
    /// was at the last index, else `Some` of the old last index whose
    /// object now lives at the freed slot.
    pub fn delete(&mut self, ty: Type, obj: Object) -> (r: Result<Option<Object>, ()>)
        requires
            old(self).wf(),
        ensures
            final(self).wf(),
            r is Err ==> *final(self) == *old(self),
            old(self).table_index(ty) is None ==> r is Err,
            old(self).table_index(ty) matches Some(t) ==> ({
                let root = Target { table: t as usize, obj: obj.0 };
                let len = old(self).tables@[t].entries@.len();
                &&& (obj.0 >= len ==> r is Err)
                &&& ((obj.0 < len && !old(self).has_cascade_into(root)) ==> {
                    &&& (r is Err <==> old(self).has_blocking_into(root))
                    &&& (r is Ok ==> {
                        &&& is_fixed_removal(*old(self), *final(self), t, obj.0 as int, None)
                        &&& r == Ok::<Option<Object>, ()>(
                            if obj.0 == len - 1 {
                                None
                            } else {
                                Some(Object((len - 1) as usize))
                            },
                        )
                    })
                })
                &&& (r is Ok ==> {
                    &&& final(self).tables@.len() == old(self).tables@.len()
                    &&& (forall|i: int|
                        0 <= i < old(self).tables@.len()
                            ==> (#[trigger] final(self).tables@[i]).ty
                                == old(self).tables@[i].ty)
                    &&& final(self).tables@[t].entries@.len() < len
                })
                &&& (r is Ok ==> forall|i2: int, j2: int, k2: int|
                    old(self).valid_slot(i2, j2, k2) && (#[trigger] old(self).slot_at(
                        i2,
                        j2,
                        k2,
                    )).target == Some(root) && old(self).slot_at(i2, j2, k2).cascade && !(i2
                        == root.table && j2 == root.obj)
                        ==> final(self).tables@[i2].entries@.len()
                            < old(self).tables@[i2].entries@.len())
                &&& (r is Ok ==> forall|i2: int, j2: int, k2: int|
                    old(self).valid_slot(i2, j2, k2) && (#[trigger] old(self).slot_at(
                        i2,
                        j2,
                        k2,
                    )).target == Some(root) && !old(self).slot_at(i2, j2, k2).cascade && !old(
                        self,
                    ).slot_at(i2, j2, k2).optional && !(i2 == root.table && j2 == root.obj)
                        ==> final(self).tables@[i2].entries@.len()
                            < old(self).tables@[i2].entries@.len())
            }),
    {
        let t = match self.find_table(ty) {
            Some(t) => t,
            None => {
                return Err(());
            },
        };
        let len = self.tables[t].entries.len();
        if obj.0 >= len {
            return Err(());
        }
        let root = Target { table: t, obj: obj.0 };
        let (casc, block) = self.scan_inbound(root);
        if !casc {
            if block {
                return Err(());
            }
            self.remove_at(t, obj.0, None);
            let rem = if obj.0 == len - 1 {
                None
            } else {
                Some(Object(len - 1))
            };
            return Ok(rem);
        }

        // mark the transitive cascade set, starting at the object itself
        let nt = self.tables.len();
        let mut marks: Vec<Vec<bool>> = Vec::new();
        let mut i: usize = 0;
        while i < nt
            invariant
                *self == *old(self),
                nt == self.tables@.len(),
                i <= nt,
                marks@.len() == i,
                forall|a: int|
                    0 <= a < i ==> (#[trigger] marks@[a])@.len()
                        == self.tables@[a].entries@.len(),
            decreases nt - i,
        {
            let rl = self.tables[i].entries.len();
            let row: Vec<bool> = vec![false; rl];
            marks.push(row);
            i += 1;
        }
        marks[t][obj.0] = true;
        proof {
            assert(marks_aligned(*self, marks));
            assert(marked(marks, root));
        }

        // a bound on how many marking passes can make progress
        let mut total: usize = 0;
        let mut i: usize = 0;
        while i < nt
            invariant
                *self == *old(self),
                old(self).table_index(ty) == Some(t as int),
                nt == self.tables@.len(),
                t < nt,
                obj.0 < self.tables@[t as int].entries@.len(),
                i <= nt,
                i > t ==> total >= 1,
            decreases nt - i,
        {
            let add = self.tables[i].entries.len();
            total = if total <= usize::MAX - add {
                total + add
            } else {
                usize::MAX
            };
            i += 1;
        }

        // propagate: the holder of a cascading reference to a doomed object
        // is doomed too
        let mut changed = true;
        let mut pass: usize = 0;
        while changed && pass < total
            invariant
                *self == *old(self),
                old(self).wf(),
                old(self).table_index(ty) == Some(t as int),
                old(self).has_cascade_into(Target { table: t, obj: obj.0 }),
                nt == self.tables@.len(),
                t < nt,
                obj.0 < self.tables@[t as int].entries@.len(),
                marks_aligned(*self, marks),
                marks@[t as int]@[obj.0 as int] == true,
                pass >= 1 ==> cascade_holders_marked(*self, marks, Target { table: t, obj: obj.0 }),
                pass == 0 ==> changed,
                total >= 1,
                pass <= total,
            decreases total - pass,
        {
            changed = false;
            let mut i: usize = 0;
            while i < nt
                invariant
                    *self == *old(self),
                    old(self).wf(),
                    old(self).table_index(ty) == Some(t as int),
                    old(self).has_cascade_into(Target { table: t, obj: obj.0 }),
                    nt == self.tables@.len(),
                    t < nt,
                    obj.0 < self.tables@[t as int].entries@.len(),
                    marks_aligned(*self, marks),
                    marks@[t as int]@[obj.0 as int] == true,
                    forall|a: int, b: int, cc: int|
                        self.valid_slot(a, b, cc) && a < i && (#[trigger] self.slot_at(
                            a,
                            b,
                            cc,
                        )).target == Some(Target { table: t, obj: obj.0 }) && self.slot_at(
                            a,
                            b,
                            cc,
                        ).cascade && !(a == t && b == obj.0) ==> marks@[a]@[b],
                    i <= nt,
                decreases nt - i,
            {
                let ne = self.tables[i].entries.len();
                let mut j: usize = 0;
                while j < ne
                    invariant
                        *self == *old(self),
                        old(self).wf(),
                        old(self).table_index(ty) == Some(t as int),
                        old(self).has_cascade_into(Target { table: t, obj: obj.0 }),
                        nt == self.tables@.len(),
                        t < nt,
                        obj.0 < self.tables@[t as int].entries@.len(),
                        marks_aligned(*self, marks),
                        marks@[t as int]@[obj.0 as int] == true,
                        forall|a: int, b: int, cc: int|
                            self.valid_slot(a, b, cc) && (a < i || (a == i && b < j))
                                && (#[trigger] self.slot_at(a, b, cc)).target == Some(
                                Target { table: t, obj: obj.0 },
                            ) && self.slot_at(a, b, cc).cascade && !(a == t && b == obj.0)
                                ==> marks@[a]@[b],
                        i < nt,
                        ne == self.tables@[i as int].entries@.len(),
                        j <= ne,
                    decreases ne - j,
                {
                    let ns = self.tables[i].entries[j].slots.len();
                    let mut k: usize = 0;
                    while k < ns
                        invariant
                            *self == *old(self),
                            old(self).wf(),
                            old(self).table_index(ty) == Some(t as int),
                            old(self).has_cascade_into(Target { table: t, obj: obj.0 }),
                            nt == self.tables@.len(),
                            t < nt,
                            obj.0 < self.tables@[t as int].entries@.len(),
                            marks_aligned(*self, marks),
                            marks@[t as int]@[obj.0 as int] == true,
                            forall|a: int, b: int, cc: int|
                                self.valid_slot(a, b, cc) && (a < i || (a == i && (b < j || (b
                                    == j && cc < k)))) && (#[trigger] self.slot_at(
                                    a,
                                    b,
                                    cc,
                                )).target == Some(Target { table: t, obj: obj.0 })
                                    && self.slot_at(a, b, cc).cascade && !(a == t && b == obj.0)
                                    ==> marks@[a]@[b],
                            i < nt,
                            ne == self.tables@[i as int].entries@.len(),
                            j < ne,
                            ns == self.tables@[i as int].entries@[j as int].slots@.len(),
                            k <= ns,
                        decreases ns - k,
                    {
                        let s = &self.tables[i].entries[j].slots[k];
                        let ghost prev_m = marks;
                        if s.cascade {
                            if let Some(tg) = s.target {
                                proof {
                                    assert(self.valid_slot(i as int, j as int, k as int));
                                    assert(self.slot_at(i as int, j as int, k as int) == *s);
                                    assert(self.target_in_range(tg));
                                }
                                if marks[tg.table][tg.obj] && !marks[i][j] {
                                    marks[i][j] = true;
                                    proof {
                                        assert(marks@ == prev_m@.update(
                                            i as int,
                                            marks@[i as int],
                                        ));
                                        assert(marks@[i as int]@ == prev_m@[i as int]@.update(
                                            j as int,
                                            true,
                                        ));
                                    }
                                    changed = true;
                                }
                            }
                        }
                        proof {
                            assert forall|a: int, b: int|
                                0 <= a < marks@.len() && 0 <= b < marks@[a]@.len()
                                    && prev_m@[a]@[b] implies marks@[a]@[b] by {
                                if a != i as int {
                                    assert(marks@[a] == prev_m@[a]);
                                }
                            }
                            let root = Target { table: t, obj: obj.0 };
                            if self.slot_at(i as int, j as int, k as int).target == Some(root)
                                && self.slot_at(i as int, j as int, k as int).cascade && !(
                            i as int == t as int && j as int == obj.0 as int) {
                                assert(marks@[i as int]@[j as int]);
                            }
                        }
                        k += 1;
                    }
                    j += 1;
                }
                i += 1;
            }
            pass += 1;
        }
        proof {
            assert(total >= 1);
            assert(pass >= 1);
            assert(cascade_holders_marked(*self, marks, Target { table: t, obj: obj.0 }));
        }

        // validate before committing anything: a non-cascading,
        // non-optional reference from a live holder into the doomed set
        // aborts the whole operation
        let mut i: usize = 0;
        while i < nt
            invariant
                *self == *old(self),
                old(self).wf(),
                old(self).table_index(ty) == Some(t as int),
                old(self).has_cascade_into(Target { table: t, obj: obj.0 }),
                nt == self.tables@.len(),
                t < nt,
                obj.0 < self.tables@[t as int].entries@.len(),
                marks_aligned(*self, marks),
                marks@[t as int]@[obj.0 as int] == true,
                forall|a: int, b: int, cc: int|
                    self.valid_slot(a, b, cc) && a < i && (#[trigger] self.slot_at(
                        a,
                        b,
                        cc,
                    )).target is Some && marked(marks, self.slot_at(a, b, cc).target->0)
                        && !self.slot_at(a, b, cc).cascade && !self.slot_at(a, b, cc).optional
                        ==> marks@[a]@[b],
                i <= nt,
            decreases nt - i,
        {
            let ne = self.tables[i].entries.len();
            let mut j: usize = 0;
            while j < ne
                invariant
                    *self == *old(self),
                    old(self).wf(),
                    old(self).table_index(ty) == Some(t as int),
                    old(self).has_cascade_into(Target { table: t, obj: obj.0 }),
                    nt == self.tables@.len(),
                    t < nt,
                    obj.0 < self.tables@[t as int].entries@.len(),
                    marks_aligned(*self, marks),
                    marks@[t as int]@[obj.0 as int] == true,
                    forall|a: int, b: int, cc: int|
                        self.valid_slot(a, b, cc) && (a < i || (a == i && b < j))
                            && (#[trigger] self.slot_at(a, b, cc)).target is Some && marked(
                            marks,
                            self.slot_at(a, b, cc).target->0,
                        ) && !self.slot_at(a, b, cc).cascade && !self.slot_at(a, b, cc).optional
                            ==> marks@[a]@[b],
                    i < nt,
                    ne == self.tables@[i as int].entries@.len(),
                    j <= ne,
                decreases ne - j,
            {
                if !marks[i][j] {
                    let ns = self.tables[i].entries[j].slots.len();
                    let mut k: usize = 0;
                    while k < ns
                        invariant
                            *self == *old(self),
                            old(self).wf(),
                            old(self).table_index(ty) == Some(t as int),
                            old(self).has_cascade_into(Target { table: t, obj: obj.0 }),
                            nt == self.tables@.len(),
                            t < nt,
                            obj.0 < self.tables@[t as int].entries@.len(),
                            marks_aligned(*self, marks),
                            marks@[t as int]@[obj.0 as int] == true,
                            !marks@[i as int]@[j as int],
                            forall|a: int, b: int, cc: int|
                                self.valid_slot(a, b, cc) && (a < i || (a == i && (b < j || (b
                                    == j && cc < k)))) && (#[trigger] self.slot_at(
                                    a,
                                    b,
                                    cc,
                                )).target is Some && marked(
                                    marks,
                                    self.slot_at(a, b, cc).target->0,
                                ) && !self.slot_at(a, b, cc).cascade && !self.slot_at(
                                    a,
                                    b,
                                    cc,
                                ).optional ==> marks@[a]@[b],
                            i < nt,
                            ne == self.tables@[i as int].entries@.len(),
                            j < ne,
                            ns == self.tables@[i as int].entries@[j as int].slots@.len(),
                            k <= ns,
                        decreases ns - k,
                    {
                        let s = &self.tables[i].entries[j].slots[k];
                        if !s.cascade && !s.optional {
                            if let Some(tg) = s.target {
                                proof {
                                    assert(self.valid_slot(i as int, j as int, k as int));
                                    assert(self.slot_at(i as int, j as int, k as int) == *s);
                                    assert(self.target_in_range(tg));
                                }
                                if marks[tg.table][tg.obj] {
                                    return Err(());
                                }
                            }
                        }
                        k += 1;
                    }
                } else {
                    proof {
                        assert(marks@[i as int]@[j as int]);
                    }
                }
                j += 1;
            }
            i += 1;
        }
        proof {
            assert(blocking_holders_marked(*self, marks));
        }

        let ghost gmarks = marks;
        let r = self.cascade_commit(t, obj.0, marks, len);
        proof {
            let root = Target { table: t, obj: obj.0 };
            assert forall|i2: int, j2: int, k2: int|
                old(self).valid_slot(i2, j2, k2) && (#[trigger] old(self).slot_at(
                    i2,
                    j2,
                    k2,
                )).target == Some(root) && old(self).slot_at(i2, j2, k2).cascade && !(i2
                == root.table && j2 == root.obj) implies self.tables@[i2].entries@.len()
                < old(self).tables@[i2].entries@.len() by {
                assert(gmarks@[i2]@[j2]);
                assert(gmarks@[i2]@.len() == old(self).tables@[i2].entries@.len());
                lemma_count_one(gmarks@[i2]@, j2);
                assert(self.tables@[i2].entries@.len() == old(self).tables@[i2].entries@.len()
                    - count_marked(gmarks@[i2]@));
            }
            assert forall|i2: int, j2: int, k2: int|
                old(self).valid_slot(i2, j2, k2) && (#[trigger] old(self).slot_at(
                    i2,
                    j2,
                    k2,
                )).target == Some(root) && !old(self).slot_at(i2, j2, k2).cascade && !old(
                self,
            ).slot_at(i2, j2, k2).optional && !(i2 == root.table && j2 == root.obj)
                implies self.tables@[i2].entries@.len()
                < old(self).tables@[i2].entries@.len() by {
                assert(marked(gmarks, root));
                assert(gmarks@[i2]@[j2]);
                assert(gmarks@[i2]@.len() == old(self).tables@[i2].entries@.len());
                lemma_count_one(gmarks@[i2]@, j2);
                assert(self.tables@[i2].entries@.len() == old(self).tables@[i2].entries@.len()
                    - count_marked(gmarks@[i2]@));
            }
        }
        r
    }

    /// Replaces an object with another of the same type: every reference
    /// to `from` is redirected to `to`, then `from` is removed with the
    /// same swap-remove protocol and remap contract as `delete`.  Fails,
    /// changing nothing, when the type is unknown, either object does not
    /// exist, or the two are the same object.
    pub fn replace(&mut self, ty: Type, from: Object, to: Object) -> (r: Result<
        Option<Object>,
        (),
    >)
        requires
            old(self).wf(),
        ensures
            final(self).wf(),
            r is Err ==> *final(self) == *old(self),
            old(self).table_index(ty) is None ==> r is Err,
            old(self).table_index(ty) matches Some(t) ==> ({
                let len = old(self).tables@[t].entries@.len();
                &&& (r is Err <==> (from.0 >= len || to.0 >= len || from.0 == to.0))
                &&& (r is Ok ==> {
                    &&& is_fixed_removal(
                        *old(self),
                        *final(self),
                        t,
                        from.0 as int,
                        Some(Target { table: t as usize, obj: to.0 }),
                    )
                    &&& r == Ok::<Option<Object>, ()>(
                        if from.0 == len - 1 {
                            None
                        } else {
                            Some(Object((len - 1) as usize))
                        },
                    )
                })
            }),
    {
        let t = match self.find_table(ty) {
            Some(t) => t,
            None => {
                return Err(());
            },
        };
        let len = self.tables[t].entries.len();
        if from.0 >= len || to.0 >= len || from.0 == to.0 {
            return Err(());
        }
        self.remove_at(t, from.0, Some(Target { table: t, obj: to.0 }));
        let rem = if from.0 == len - 1 {
            None
        } else {
            Some(Object(len - 1))
        };
        Ok(rem)
    }
}

/// The field metadata agrees in name, declared type, index and array size.
pub open spec fn field_matches(a: Field, b: Field) -> bool {
    &&& a.name@ == b.name@
    &&& a.ty.name() == b.ty.name()
    &&& a.index == b.index
    &&& a.array == b.array
}

/// Whether two field descriptions match.
fn field_eq(a: &Field, b: &Field) -> (r: bool)
    ensures
        r == field_matches(*a, *b),
{
    crate::model::str_eq(a.name.as_str(), b.name.as_str()) && crate::model::str_eq(a.ty.0, b.ty.0)
        && a.index == b.index && a.array == b.array
}

impl Controller {
    /// The slot `(fi, j, k)` is the live form of the reference `r` whose
    /// `to` endpoint resolved to table `ti`.
    pub open spec fn slot_is_reference(self, fi: int, j: int, k: int, ti: int, r: Reference) -> bool {
        let s = self.slot_at(fi, j, k);
        &&& field_matches(s.field, r.field)
        &&& s.target == Some(Target { table: ti as usize, obj: r.to_obj.0 })
        &&& s.cascade == r.cascade
        &&& s.optional == r.optional
    }

    /// The reference described by the slot `(i, j, k)`, with types resolved
    /// back to their tags.
    pub open spec fn slot_ref(self, i: int, j: int, k: int) -> Reference {
        let s = self.slot_at(i, j, k);
        let tg = s.target->0;
        Reference {
            from_ty: self.tables@[i].ty,
            from_obj: Object(j as usize),
            to_type: self.tables@[tg.table as int].ty,
            to_obj: Object(tg.obj),
            cascade: s.cascade,
            optional: s.optional,
            field: s.field,
        }
    }

    /// Every collected reference is the live form of some slot of the
    /// object `(t, j)` whose field is set.
    pub open spec fn refs_from_sound(self, t: int, j: int, r: Seq<Reference>) -> bool {
        forall|m: int|
            0 <= m < r.len() ==> exists|kk: int|
                0 <= kk < self.entry_at(t, j).slots@.len() && (#[trigger] self.slot_at(
                    t,
                    j,
                    kk,
                )).target is Some && #[trigger] r[m] == self.slot_ref(t, j, kk)
    }

    /// Every collected reference is the live form of some slot pointing at
    /// `root`.
    pub open spec fn refs_to_sound(self, root: Target, r: Seq<Reference>) -> bool {
        forall|m: int|
            0 <= m < r.len() ==> exists|a: int, b: int, c: int|
                self.valid_slot(a, b, c) && (#[trigger] self.slot_at(a, b, c)).target
                    == Some(root) && #[trigger] r[m] == self.slot_ref(a, b, c)
    }

    /// Some slot `k` of the object `(f, j)` was the live form of the
    /// reference and is now cleared; nothing else changed.
    pub open spec fn reference_cleared(self, post: Controller, f: int, j: int, ti: int, rref: Reference) -> bool {
        exists|k: int|
            {
                &&& 0 <= k < self.entry_at(f, j).slots@.len()
                &&& #[trigger] self.slot_is_reference(f, j, k, ti, rref)
                &&& post.tables@.len() == self.tables@.len()
                &&& (forall|i2: int|
                    0 <= i2 < self.tables@.len() && i2 != f ==> post.tables@[i2]
                        == self.tables@[i2])
                &&& post.tables@[f].ty == self.tables@[f].ty
                &&& post.tables@[f].selected == self.tables@[f].selected
                &&& post.tables@[f].entries@.len() == self.tables@[f].entries@.len()
                &&& (forall|j2: int|
                    0 <= j2 < self.tables@[f].entries@.len() && j2 != j ==> post.entry_at(f, j2)
                        == self.entry_at(f, j2))
                &&& post.entry_at(f, j).data == self.entry_at(f, j).data
                &&& post.entry_at(f, j).slots@ == self.entry_at(f, j).slots@.update(
                    k,
                    (Slot { target: None, ..self.slot_at(f, j, k) }),
                )
            }
    }

    /// Introduces [`Controller::reference_cleared`] from a witness slot.
    pub proof fn lemma_reference_cleared(
        self,
        post: Controller,
        f: int,
        j: int,
        ti: int,
        rref: Reference,
        k: int,
    )
        requires
            0 <= k < self.entry_at(f, j).slots@.len(),
            self.slot_is_reference(f, j, k, ti, rref),
            post.tables@.len() == self.tables@.len(),
            forall|i2: int|
                0 <= i2 < self.tables@.len() && i2 != f ==> post.tables@[i2]
                    == self.tables@[i2],
            post.tables@[f].ty == self.tables@[f].ty,
            post.tables@[f].selected == self.tables@[f].selected,
            post.tables@[f].entries@.len() == self.tables@[f].entries@.len(),
            forall|j2: int|
                0 <= j2 < self.tables@[f].entries@.len() && j2 != j ==> post.entry_at(f, j2)
                    == self.entry_at(f, j2),
            post.entry_at(f, j).data == self.entry_at(f, j).data,
            post.entry_at(f, j).slots@ == self.entry_at(f, j).slots@.update(
                k,
                (Slot { target: None, ..self.slot_at(f, j, k) }),
            ),
        ensures
            self.reference_cleared(post, f, j, ti, rref),
    {
    }

    /// Clears one field-level reference on its `from` object without
    /// touching either endpoint.  Fails, changing nothing, when the
    /// reference does not name a live field with exactly that target and
    /// policy any more (a stale reference value).
    #[verifier::rlimit(60)]
    pub fn delete_reference(&mut self, reference: Reference) -> (r: Result<(), ()>)
        requires
            old(self).wf(),
        ensures
            final(self).wf(),
            r is Err ==> *final(self) == *old(self),
            (old(self).table_index(reference.from_ty) is None
                || old(self).table_index(reference.to_type) is None) ==> r is Err,
            old(self).table_index(reference.from_ty) matches Some(f)
                ==> (old(self).table_index(reference.to_type) matches Some(tt) ==> {
                    &&& (reference.from_obj.0 >= old(self).tables@[f].entries@.len()
                        ==> r is Err)
                    &&& (reference.from_obj.0 < old(self).tables@[f].entries@.len() ==> {
                        let j = reference.from_obj.0 as int;
                        &&& (r is Err <==> (forall|k: int|
                            0 <= k < old(self).entry_at(f, j).slots@.len()
                                ==> !old(self).slot_is_reference(f, j, k, tt, reference)))
                        &&& (r is Ok ==> old(self).reference_cleared(
                            *final(self),
                            f,
                            j,
                            tt,
                            reference,
                        ))
                    })
                }),
    {
        let f = match self.find_table(reference.from_ty) {
            Some(f) => f,
            None => {
                return Err(());
            },
        };
        let tt = match self.find_table(reference.to_type) {
            Some(tt) => tt,
            None => {
                return Err(());
            },
        };
        if reference.from_obj.0 >= self.tables[f].entries.len() {
            return Err(());
        }
        let j = reference.from_obj.0;
        let want = Target { table: tt, obj: reference.to_obj.0 };
        let ns = self.tables[f].entries[j].slots.len();
        let mut k: usize = 0;
        while k < ns
            invariant
                *self == *old(self),
                old(self).wf(),
                old(self).table_index(reference.from_ty) == Some(f as int),
                old(self).table_index(reference.to_type) == Some(tt as int),
                f < self.tables@.len(),
                j == reference.from_obj.0,
                j < self.tables@[f as int].entries@.len(),
                ns == self.entry_at(f as int, j as int).slots@.len(),
                k <= ns,
                want == (Target { table: tt, obj: reference.to_obj.0 }),
                forall|m: int|
                    0 <= m < k ==> !old(self).slot_is_reference(
                        f as int,
                        j as int,
                        m,
                        tt as int,
                        reference,
                    ),
            decreases ns - k,
        {
            let s = &self.tables[f].entries[j].slots[k];
            let hit = field_eq(&s.field, &reference.field) && opt_target_eq(s.target, Some(want))
                && s.cascade == reference.cascade && s.optional == reference.optional;
            if hit {
                proof {
                    assert(self.slot_at(f as int, j as int, k as int) == *s);
                    assert(old(self).slot_is_reference(
                        f as int,
                        j as int,
                        k as int,
                        tt as int,
                        reference,
                    ));
                }
                let ghost prev = *self;
                self.tables[f].entries[j].slots[k].target = None;
                proof {
                    let ff = f as int;
                    let jj = j as int;
                    let kk = k as int;
                    assert(self.tables@ == prev.tables@.update(ff, self.tables@[ff]));
                    assert(self.tables@[ff].entries@ == prev.tables@[ff].entries@.update(
                        jj,
                        self.tables@[ff].entries@[jj],
                    ));
                    assert(self.tables@[ff].entries@[jj].slots@
                        == prev.tables@[ff].entries@[jj].slots@.update(
                        kk,
                        self.tables@[ff].entries@[jj].slots@[kk],
                    ));
                    assert(self.slot_at(ff, jj, kk) == (Slot {
                        target: None,
                        ..prev.slot_at(ff, jj, kk)
                    }));
                    assert forall|a: int, b: int, c: int|
                        self.valid_slot(a, b, c) && (#[trigger] self.slot_at(
                            a,
                            b,
                            c,
                        )).target is Some implies self.target_in_range(
                        self.slot_at(a, b, c).target->0,
                    ) by {
                        assert(prev.valid_slot(a, b, c));
                        if !(a == ff && b == jj && c == kk) {
                            assert(self.slot_at(a, b, c) == prev.slot_at(a, b, c));
                        }
                        assert(prev.target_in_range(self.slot_at(a, b, c).target->0));
                        assert(self.tables@[(self.slot_at(a, b, c).target->0).table as int]
                            .entries@.len() == prev.tables@[(self.slot_at(
                            a,
                            b,
                            c,
                        ).target->0).table as int].entries@.len());
                    }
                    assert forall|a: int| 0 <= a < self.tables@.len()
                        implies #[trigger] self.sel_wf(a) by {
                        assert(prev.sel_wf(a));
                        if a != ff {
                            assert(self.tables@[a] == prev.tables@[a]);
                        } else {
                            assert(self.tables@[a].selected == prev.tables@[a].selected);
                            assert(self.tables@[a].entries@.len()
                                == prev.tables@[a].entries@.len());
                        }
                    }
                    let ff = f as int;
                    let jj = j as int;
                    let kk = k as int;
                    old(self).lemma_reference_cleared(*self, ff, jj, tt as int, reference, kk);
                }
                return Ok(());
            }
            k += 1;
        }
        Err(())
    }

    /// All references pointing from one object at other objects: one per
    /// slot whose field is set.  Empty when the type is unknown or the
    /// object does not exist.
    pub fn references_from(&self, ty: Type, obj: Object) -> (r: Vec<Reference>)
        requires
            self.wf(),
        ensures
            self.table_index(ty) is None ==> r@.len() == 0,
            self.table_index(ty) matches Some(t) ==> ({
                &&& (obj.0 >= self.tables@[t].entries@.len() ==> r@.len() == 0)
                &&& (obj.0 < self.tables@[t].entries@.len() ==> {
                    let j = obj.0 as int;
                    &&& self.refs_from_sound(t, j, r@)
                    &&& (forall|k: int|
                        0 <= k < self.entry_at(t, j).slots@.len() && (#[trigger] self.slot_at(
                            t,
                            j,
                            k,
                        )).target is Some ==> r@.contains(self.slot_ref(t, j, k)))
                })
            }),
    {
        let t = match self.find_table(ty) {
            Some(t) => t,
            None => {
                return Vec::new();
            },
        };
        if obj.0 >= self.tables[t].entries.len() {
            return Vec::new();
        }
        let j = obj.0;
        let ns = self.tables[t].entries[j].slots.len();
        let mut r: Vec<Reference> = Vec::new();
        let mut k: usize = 0;
        while k < ns
            invariant
                self.wf(),
                self.table_index(ty) == Some(t as int),
                t < self.tables@.len(),
                j == obj.0,
                j < self.tables@[t as int].entries@.len(),
                ns == self.entry_at(t as int, j as int).slots@.len(),
                k <= ns,
                self.refs_from_sound(t as int, j as int, r@),
                forall|kk: int|
                    0 <= kk < k && (#[trigger] self.slot_at(t as int, j as int, kk)).target
                        is Some ==> r@.contains(self.slot_ref(t as int, j as int, kk)),
            decreases ns - k,
        {
            let s = &self.tables[t].entries[j].slots[k];
            if let Some(tg) = s.target {
                proof {
                    assert(self.valid_slot(t as int, j as int, k as int));
                    assert(self.slot_at(t as int, j as int, k as int) == *s);
                    assert(self.target_in_range(tg));
                }
                let ghost r0 = r@;
                let item = Reference {
                    from_ty: self.tables[t].ty,
                    from_obj: Object(j),
                    to_type: self.tables[tg.table].ty,
                    to_obj: Object(tg.obj),
                    cascade: s.cascade,
                    optional: s.optional,
                    field: crate::model::clone_field(&s.field),
                };
                proof {
                    assert(item == self.slot_ref(t as int, j as int, k as int));
                }
                r.push(item);
                proof {
                    assert(r@ == r0.push(item));
                    assert(r@[r0.len() as int] == item);
                    assert(self.refs_from_sound(t as int, j as int, r@)) by {
                        assert forall|m: int| 0 <= m < r@.len() implies exists|kk: int|
                            0 <= kk < self.entry_at(t as int, j as int).slots@.len()
                                && (#[trigger] self.slot_at(t as int, j as int, kk)).target
                                is Some && #[trigger] r@[m] == self.slot_ref(
                                t as int,
                                j as int,
                                kk,
                            ) by {
                            if m < r0.len() {
                                assert(r@[m] == r0[m]);
                                assert(self.refs_from_sound(t as int, j as int, r0));
                                let kk = choose|kk: int|
                                    0 <= kk < self.entry_at(t as int, j as int).slots@.len()
                                        && (#[trigger] self.slot_at(
                                        t as int,
                                        j as int,
                                        kk,
                                    )).target is Some && #[trigger] r0[m] == self.slot_ref(
                                        t as int,
                                        j as int,
                                        kk,
                                    );
                                assert(r@[m] == self.slot_ref(t as int, j as int, kk));
                            } else {
                                assert(r@[m] == self.slot_ref(t as int, j as int, k as int));
                                assert((self.slot_at(t as int, j as int, k as int)).target
                                    is Some);
                            }
                        }
                    }
                    assert forall|kk: int|
                        0 <= kk < k + 1 && (#[trigger] self.slot_at(
                            t as int,
                            j as int,
                            kk,
                        )).target is Some implies r@.contains(
                        self.slot_ref(t as int, j as int, kk),
                    ) by {
                        if kk < k {
                            let m = choose|m: int|
                                0 <= m < r0.len() && r0[m] == self.slot_ref(
                                    t as int,
                                    j as int,
                                    kk,
                                );
                            assert(r@[m] == self.slot_ref(t as int, j as int, kk));
                        } else {
                            assert(r@[r0.len() as int] == self.slot_ref(t as int, j as int, kk));
                        }
                    }
                }
            }
            k += 1;
        }
        r
    }

    /// All references pointing to one object, discovered by walking every
    /// live object's fields.  Empty when the type is unknown or the object
    /// does not exist.
    pub fn references_to(&self, ty: Type, obj: Object) -> (r: Vec<Reference>)
        requires
            self.wf(),
        ensures
            self.table_index(ty) is None ==> r@.len() == 0,
            self.table_index(ty) matches Some(t) ==> ({
                let root = Target { table: t as usize, obj: obj.0 };
                &&& self.refs_to_sound(root, r@)
                &&& (forall|i: int, j: int, k: int|
                    self.valid_slot(i, j, k) && (#[trigger] self.slot_at(i, j, k)).target
                        == Some(root) ==> r@.contains(self.slot_ref(i, j, k)))
            }),
    {
        let t = match self.find_table(ty) {
            Some(t) => t,
            None => {
                return Vec::new();
            },
        };
        let root = Target { table: t, obj: obj.0 };
        let nt = self.tables.len();
        let mut r: Vec<Reference> = Vec::new();
        let mut i: usize = 0;
        while i < nt
            invariant
                self.wf(),
                self.table_index(ty) == Some(t as int),
                root == (Target { table: t, obj: obj.0 }),
                nt == self.tables@.len(),
                i <= nt,
                self.refs_to_sound(root, r@),
                forall|a: int, b: int, c: int|
                    self.valid_slot(a, b, c) && a < i && (#[trigger] self.slot_at(
                        a,
                        b,
                        c,
                    )).target == Some(root) ==> r@.contains(self.slot_ref(a, b, c)),
            decreases nt - i,
        {
            let ne = self.tables[i].entries.len();
            let mut j: usize = 0;
            while j < ne
                invariant
                    self.wf(),
                    self.table_index(ty) == Some(t as int),
                    root == (Target { table: t, obj: obj.0 }),
                    nt == self.tables@.len(),
                    i < nt,
                    ne == self.tables@[i as int].entries@.len(),
                    j <= ne,
                    self.refs_to_sound(root, r@),
                    forall|a: int, b: int, c: int|
                        self.valid_slot(a, b, c) && (a < i || (a == i && b < j))
                            && (#[trigger] self.slot_at(a, b, c)).target == Some(root)
                            ==> r@.contains(self.slot_ref(a, b, c)),
                decreases ne - j,
            {
                let ns = self.tables[i].entries[j].slots.len();
                let mut k: usize = 0;
                while k < ns
                    invariant
                        self.wf(),
                        self.table_index(ty) == Some(t as int),
                        root == (Target { table: t, obj: obj.0 }),
                        nt == self.tables@.len(),
                        i < nt,
                        ne == self.tables@[i as int].entries@.len(),
                        j < ne,
                        ns == self.entry_at(i as int, j as int).slots@.len(),
                        k <= ns,
                        self.refs_to_sound(root, r@),
                        forall|a: int, b: int, c: int|
                            self.valid_slot(a, b, c) && (a < i || (a == i && (b < j || (b == j
                                && c < k)))) && (#[trigger] self.slot_at(a, b, c)).target
                                == Some(root) ==> r@.contains(self.slot_ref(a, b, c)),
                    decreases ns - k,
                {
                    let s = &self.tables[i].entries[j].slots[k];
                    if opt_target_eq(s.target, Some(root)) {
                        proof {
                            assert(self.valid_slot(i as int, j as int, k as int));
                            assert(self.slot_at(i as int, j as int, k as int) == *s);
                            assert(self.target_in_range(root));
                        }
                        let ghost r0 = r@;
                        let item = Reference {
                            from_ty: self.tables[i].ty,
                            from_obj: Object(j),
                            to_type: self.tables[root.table].ty,
                            to_obj: Object(root.obj),
                            cascade: s.cascade,
                            optional: s.optional,
                            field: crate::model::clone_field(&s.field),
                        };
                        proof {
                            assert(item == self.slot_ref(i as int, j as int, k as int));
                        }
                        r.push(item);
                        proof {
                            assert(r@ == r0.push(item));
                            assert(r@[r0.len() as int] == item);
                            assert(self.refs_to_sound(root, r@)) by {
                                assert forall|m: int| 0 <= m < r@.len() implies exists|a: int, b: int, c: int|
                                    self.valid_slot(a, b, c) && (#[trigger] self.slot_at(
                                        a,
                                        b,
                                        c,
                                    )).target == Some(root) && #[trigger] r@[m]
                                        == self.slot_ref(a, b, c) by {
                                    if m < r0.len() {
                                        assert(r@[m] == r0[m]);
                                        assert(self.refs_to_sound(root, r0));
                                        let (a, b, c): (int, int, int) = choose|
                                            a: int,
                                            b: int,
                                            c: int,
                                        |
                                            self.valid_slot(a, b, c) && (#[trigger] self.slot_at(
                                                a,
                                                b,
                                                c,
                                            )).target == Some(root) && #[trigger] r0[m]
                                                == self.slot_ref(a, b, c);
                                        assert(r@[m] == self.slot_ref(a, b, c));
                                    } else {
                                        assert(r@[m] == self.slot_ref(
                                            i as int,
                                            j as int,
                                            k as int,
                                        ));
                                        assert(self.valid_slot(i as int, j as int, k as int));
                                    }
                                }
                            }
                            assert forall|a: int, b: int, c: int|
                                self.valid_slot(a, b, c) && (a < i || (a == i && (b < j || (b
                                    == j && c < k + 1)))) && (#[trigger] self.slot_at(
                                    a,
                                    b,
                                    c,
                                )).target == Some(root) implies r@.contains(
                                self.slot_ref(a, b, c),
                            ) by {
                                if a == i as int && b == j as int && c == k as int {
                                    assert(r@[r0.len() as int] == self.slot_ref(a, b, c));
                                } else {
                                    let m = choose|m: int|
                                        0 <= m < r0.len() && r0[m] == self.slot_ref(a, b, c);
                                    assert(r@[m] == self.slot_ref(a, b, c));
                                }
                            }
                        }
                    }
                    k += 1;
                }
                j += 1;
            }
            i += 1;
        }
        r
    }
}

} // verus!
