//! Per-cycle reconciliation of view membership changes.
//!
//! Some query results ("views") report membership changes as independent
//! insert and delete events even when their rows carry a stable key, so a
//! logical update arrives as a delete/insert pair. The `Reconciler`
//! buffers one cycle's events and then collapses them: a key seen on both
//! sides becomes one update notification (old row from the "left" side,
//! new row from the "entered" side), a key seen only on the "entered"
//! side becomes an insert, and a key seen only on the "left" side becomes
//! a delete. Within one cycle and direction, the last event for a key
//! wins. Nothing is carried across cycles: the buffers are rebuilt from
//! empty every cycle.

use vstd::prelude::*;

use crate::key_map::KeyMap;
use crate::key_map::distinct_keys;
use crate::key_map::has_key;
use crate::key_map::lemma_map_of_dom;
use crate::key_map::lemma_map_of_index;
use crate::key_map::map_of;
use crate::messages::DeleteMessage;
use crate::messages::InsertMessage;
use crate::messages::UpdateMessage;

verus! {

/// A row paired with the identifying key that the caller's key-extraction
/// function computed from it. The view is assumed to hold at most one
/// live row per key at any instant.
#[derive(Debug, Clone, PartialEq, Eq)]
pub struct KeyedRow<R> {
    /// The identifying key of the row.
    pub key: u64,
    /// The row itself.
    pub row: R,
}

/// One buffered view membership change.
#[derive(Debug, Clone, PartialEq, Eq)]
pub enum ViewEvent<R> {
    /// The row entered the view's result set.
    Entered(KeyedRow<R>),
    /// The row left the view's result set.
    Left(KeyedRow<R>),
}

/// The key-to-row mapping that the "entered" events of `evs` collapse to;
/// the last event for a key wins.
pub open spec fn entered_of<R>(evs: Seq<ViewEvent<R>>) -> Map<u64, R>
    decreases evs.len(),
{
    if evs.len() == 0 {
        Map::empty()
    } else {
        let m = entered_of(evs.drop_last());
        match evs.last() {
            ViewEvent::Entered(kr) => m.insert(kr.key, kr.row),
            ViewEvent::Left(_) => m,
        }
    }
}

/// The key-to-row mapping that the "left" events of `evs` collapse to;
/// the last event for a key wins.
pub open spec fn left_of<R>(evs: Seq<ViewEvent<R>>) -> Map<u64, R>
    decreases evs.len(),
{
    if evs.len() == 0 {
        Map::empty()
    } else {
        let m = left_of(evs.drop_last());
        match evs.last() {
            ViewEvent::Left(kr) => m.insert(kr.key, kr.row),
            ViewEvent::Entered(_) => m,
        }
    }
}

/// One update notification is sound for the cycle mappings `e` (entered)
/// and `l` (left): its key was seen on both sides, its old row is the
/// left-side row and its new row the entered-side row.
pub open spec fn update_item_ok<R>(
    e: Map<u64, R>,
    l: Map<u64, R>,
    u: UpdateMessage<KeyedRow<R>>,
) -> bool {
    &&& u.old_row.key == u.new_row.key
    &&& e.dom().contains(u.new_row.key)
    &&& l.dom().contains(u.new_row.key)
    &&& u.new_row.row == e[u.new_row.key]
    &&& u.old_row.row == l[u.new_row.key]
}

/// One insert notification is sound for the cycle mappings: its key was
/// seen only on the "entered" side and it carries that side's row.
pub open spec fn insert_item_ok<R>(
    e: Map<u64, R>,
    l: Map<u64, R>,
    m: InsertMessage<KeyedRow<R>>,
) -> bool {
    &&& e.dom().contains(m.row.key)
    &&& !l.dom().contains(m.row.key)
    &&& m.row.row == e[m.row.key]
}

/// One delete notification is sound for the cycle mappings: its key was
/// seen only on the "left" side and it carries that side's row.
pub open spec fn delete_item_ok<R>(
    e: Map<u64, R>,
    l: Map<u64, R>,
    m: DeleteMessage<KeyedRow<R>>,
) -> bool {
    &&& l.dom().contains(m.row.key)
    &&& !e.dom().contains(m.row.key)
    &&& m.row.row == l[m.row.key]
}

/// The update notifications of one cycle: exactly one per key seen on
/// both sides, each sound for the cycle mappings.
pub open spec fn updates_match<R>(
    e: Map<u64, R>,
    l: Map<u64, R>,
    ups: Seq<UpdateMessage<KeyedRow<R>>>,
) -> bool {
    &&& forall|i: int, j: int|
        0 <= i < j < ups.len() ==> (#[trigger] ups[i]).new_row.key != (#[trigger] ups[j]).new_row.key
    &&& forall|i: int| 0 <= i < ups.len() ==> update_item_ok(e, l, #[trigger] ups[i])
    &&& forall|k: u64|
        #[trigger] e.dom().contains(k) && l.dom().contains(k) ==> exists|i: int|
            0 <= i < ups.len() && (#[trigger] ups[i]).new_row.key == k
}

/// The insert notifications of one cycle: exactly one per key seen only
/// on the "entered" side, each sound for the cycle mappings.
pub open spec fn inserts_match<R>(
    e: Map<u64, R>,
    l: Map<u64, R>,
    ins: Seq<InsertMessage<KeyedRow<R>>>,
) -> bool {
    &&& forall|i: int, j: int|
        0 <= i < j < ins.len() ==> (#[trigger] ins[i]).row.key != (#[trigger] ins[j]).row.key
    &&& forall|i: int| 0 <= i < ins.len() ==> insert_item_ok(e, l, #[trigger] ins[i])
    &&& forall|k: u64|
        #[trigger] e.dom().contains(k) && !l.dom().contains(k) ==> exists|i: int|
            0 <= i < ins.len() && (#[trigger] ins[i]).row.key == k
}

/// The delete notifications of one cycle: exactly one per key seen only
/// on the "left" side, each sound for the cycle mappings.
pub open spec fn deletes_match<R>(
    e: Map<u64, R>,
    l: Map<u64, R>,
    dels: Seq<DeleteMessage<KeyedRow<R>>>,
) -> bool {
    &&& forall|i: int, j: int|
        0 <= i < j < dels.len() ==> (#[trigger] dels[i]).row.key != (#[trigger] dels[j]).row.key
    &&& forall|i: int| 0 <= i < dels.len() ==> delete_item_ok(e, l, #[trigger] dels[i])
    &&& forall|k: u64|
        #[trigger] l.dom().contains(k) && !e.dom().contains(k) ==> exists|i: int|
            0 <= i < dels.len() && (#[trigger] dels[i]).row.key == k
}

/// The notifications that one cycle's reconciliation emits.
pub struct CycleOutput<R> {
    /// One insert per key that only entered the view this cycle.
    pub inserts: Vec<InsertMessage<KeyedRow<R>>>,
    /// One update per key that left and re-entered the view this cycle.
    pub updates: Vec<UpdateMessage<KeyedRow<R>>>,
    /// One delete per key that only left the view this cycle.
    pub deletes: Vec<DeleteMessage<KeyedRow<R>>>,
}

spec fn suffix_has<R>(s: Seq<(u64, R)>, n: int, k: u64) -> bool {
    exists|j: int| n <= j < s.len() && (#[trigger] s[j]).0 == k
}

/// Buffers one cycle's view membership changes and reconciles them when
/// the cycle closes.
pub struct Reconciler<R> {
    entered: KeyMap<R>,
    left: KeyMap<R>,
}

impl<R> Reconciler<R> {
    /// The key-to-row mapping of the "entered" events buffered so far
    /// this cycle.
    pub closed spec fn entered_map(&self) -> Map<u64, R> {
        self.entered@
    }

    /// The key-to-row mapping of the "left" events buffered so far this
    /// cycle.
    pub closed spec fn left_map(&self) -> Map<u64, R> {
        self.left@
    }

    /// A reconciler with empty buffers.
    pub fn new() -> (r: Self)
        ensures
            r.entered_map() == Map::<u64, R>::empty(),
            r.left_map() == Map::<u64, R>::empty(),
    {
        Reconciler { entered: KeyMap::new(), left: KeyMap::new() }
    }

    /// Buffers one membership change; within a direction, a later event
    /// for the same key replaces the earlier one.
    pub fn record(&mut self, ev: ViewEvent<R>)
        ensures
            (match ev {
                ViewEvent::Entered(kr) => final(self).entered_map() == old(self).entered_map()
                    .insert(kr.key, kr.row) && final(self).left_map() == old(self).left_map(),
                ViewEvent::Left(kr) => final(self).left_map() == old(self).left_map().insert(
                    kr.key,
                    kr.row,
                ) && final(self).entered_map() == old(self).entered_map(),
            }),
    {
        match ev {
            ViewEvent::Entered(kr) => self.entered.insert(kr.key, kr.row),
            ViewEvent::Left(kr) => self.left.insert(kr.key, kr.row),
        }
    }

    /// Closes the cycle: reconciles the buffered events into insert,
    /// update and delete notifications and empties both buffers.
    ///
    /// Every key buffered on both sides yields exactly one update whose
    /// old row is the left-side row and whose new row is the entered-side
    /// row; every key buffered only as entered yields exactly one insert;
    /// every key buffered only as left yields exactly one delete.
    pub fn end_cycle(&mut self) -> (out: CycleOutput<R>)
        ensures
            updates_match(old(self).entered_map(), old(self).left_map(), out.updates@),
            inserts_match(old(self).entered_map(), old(self).left_map(), out.inserts@),
            deletes_match(old(self).entered_map(), old(self).left_map(), out.deletes@),
            final(self).entered_map() == Map::<u64, R>::empty(),
            final(self).left_map() == Map::<u64, R>::empty(),
    {
        let ghost e0: Map<u64, R> = self.entered@;
        let ghost l0: Map<u64, R> = self.left@;

        let mut entered = KeyMap::<R>::new();
        core::mem::swap(&mut entered, &mut self.entered);
        let mut entered_pairs = entered.into_pairs();
        let ghost ep0: Seq<(u64, R)> = entered_pairs@;

        let mut updates: Vec<UpdateMessage<KeyedRow<R>>> = Vec::new();
        let mut inserts: Vec<InsertMessage<KeyedRow<R>>> = Vec::new();

        proof {
            lemma_map_of_dom(ep0);
            lemma_map_of_index(ep0);
            assert(entered_pairs@ =~= ep0.take(entered_pairs@.len() as int));
        }

        while entered_pairs.len() > 0
            invariant
                distinct_keys(ep0),
                map_of(ep0) == e0,
                entered_pairs@.len() <= ep0.len(),
                entered_pairs@ == ep0.take(entered_pairs@.len() as int),
                self.entered@ == Map::<u64, R>::empty(),
                forall|k: u64| #[trigger]
                    self.left@.dom().contains(k) ==> l0.dom().contains(k) && !suffix_has(
                        ep0,
                        entered_pairs@.len() as int,
                        k,
                    ) && self.left@[k] == l0[k],
                forall|k: u64| #[trigger]
                    l0.dom().contains(k) && !suffix_has(ep0, entered_pairs@.len() as int, k)
                        ==> self.left@.dom().contains(k),
                forall|i: int, j: int|
                    0 <= i < j < updates@.len() ==> (#[trigger] updates@[i]).new_row.key != (
                    #[trigger] updates@[j]).new_row.key,
                forall|i: int|
                    0 <= i < updates@.len() ==> update_item_ok(e0, l0, #[trigger] updates@[i])
                        && suffix_has(ep0, entered_pairs@.len() as int, updates@[i].new_row.key),
                forall|k: u64| #[trigger]
                    l0.dom().contains(k) && suffix_has(ep0, entered_pairs@.len() as int, k)
                        ==> exists|i: int|
                        0 <= i < updates@.len() && (#[trigger] updates@[i]).new_row.key == k,
                forall|i: int, j: int|
                    0 <= i < j < inserts@.len() ==> (#[trigger] inserts@[i]).row.key != (
                    #[trigger] inserts@[j]).row.key,
                forall|i: int|
                    0 <= i < inserts@.len() ==> insert_item_ok(e0, l0, #[trigger] inserts@[i])
                        && suffix_has(ep0, entered_pairs@.len() as int, inserts@[i].row.key),
                forall|k: u64|
                    !l0.dom().contains(k) && #[trigger] suffix_has(
                        ep0,
                        entered_pairs@.len() as int,
                        k,
                    ) ==> exists|i: int|
                        0 <= i < inserts@.len() && (#[trigger] inserts@[i]).row.key == k,
            decreases entered_pairs@.len(),
        {
            let ghost n: int = entered_pairs@.len() as int;
            let p = entered_pairs.pop().unwrap();
            let k = p.0;
            proof {
                assert(entered_pairs@ =~= ep0.take(n - 1));
                assert(ep0.take(n)[n - 1] == ep0[n - 1]);
                assert(p == ep0[n - 1]);
                lemma_map_of_index(ep0);
                assert(map_of(ep0).dom().contains((#[trigger] ep0[n - 1]).0));
                assert(e0.dom().contains(k) && e0[k] == p.1);
                assert forall|k2: u64|
                    suffix_has(ep0, n - 1, k2) <==> (suffix_has(ep0, n, k2) || k2 == k) by {
                    if suffix_has(ep0, n - 1, k2) {
                        let j = choose|j: int| n - 1 <= j < ep0.len() && (#[trigger] ep0[j]).0 == k2;
                        if j >= n {
                            assert(suffix_has(ep0, n, k2));
                        }
                    }
                    if suffix_has(ep0, n, k2) {
                        let j = choose|j: int| n <= j < ep0.len() && (#[trigger] ep0[j]).0 == k2;
                        assert(n - 1 <= j < ep0.len() && (#[trigger] ep0[j]).0 == k2);
                    }
                    if k2 == k {
                        assert(n - 1 <= n - 1 < ep0.len() && (#[trigger] ep0[n - 1]).0 == k2);
                    }
                }
                assert(!suffix_has(ep0, n, k)) by {
                    if suffix_has(ep0, n, k) {
                        let j = choose|j: int| n <= j < ep0.len() && (#[trigger] ep0[j]).0 == k;
                        assert((#[trigger] ep0[n - 1]).0 != (#[trigger] ep0[j]).0);
                    }
                }
            }
            let ghost lpre: Map<u64, R> = self.left@;
            let ghost ups0: Seq<UpdateMessage<KeyedRow<R>>> = updates@;
            let ghost ins0: Seq<InsertMessage<KeyedRow<R>>> = inserts@;
            let removed = self.left.remove(k);
            proof {
                assert(self.left@ == lpre.remove(k));
                assert forall|k2: u64| #[trigger]
                    self.left@.dom().contains(k2) implies l0.dom().contains(k2) && !suffix_has(
                    ep0,
                    n - 1,
                    k2,
                ) && self.left@[k2] == l0[k2] by {
                    assert(lpre.dom().contains(k2));
                    assert(k2 != k);
                }
                assert forall|k2: u64| #[trigger]
                    l0.dom().contains(k2) && !suffix_has(ep0, n - 1, k2) implies self.left@.dom()
                    .contains(k2) by {
                    assert(!suffix_has(ep0, n, k2));
                    assert((#[trigger] ep0[n - 1]).0 == k);
                    assert(suffix_has(ep0, n - 1, k));
                    assert(k2 != k);
                    assert(lpre.dom().contains(k2));
                }
            }
            match removed {
                Some(old_row) => {
                    let u = UpdateMessage {
                        old_row: KeyedRow { key: k, row: old_row },
                        new_row: KeyedRow { key: k, row: p.1 },
                    };
                    let ghost gu: UpdateMessage<KeyedRow<R>> = u;
                    proof {
                        assert(lpre.dom().contains(k));
                        assert(update_item_ok(e0, l0, gu));
                    }
                    updates.push(u);
                    proof {
                        assert(updates@ == ups0.push(gu));
                        assert(updates@[updates@.len() - 1] == gu);
                        assert forall|i: int|
                            0 <= i < updates@.len() implies update_item_ok(
                            e0,
                            l0,
                            #[trigger] updates@[i],
                        ) && suffix_has(ep0, n - 1, updates@[i].new_row.key) by {
                            if i < updates@.len() - 1 {
                                assert(updates@[i] == (#[trigger] ups0[i]));
                                assert(suffix_has(ep0, n, ups0[i].new_row.key));
                            } else {
                                assert(updates@[i] == gu);
                                assert(suffix_has(ep0, n - 1, k));
                            }
                        }
                        assert forall|i: int, j: int|
                            0 <= i < j < updates@.len() implies (#[trigger] updates@[i]).new_row.key
                            != (#[trigger] updates@[j]).new_row.key by {
                            if j < updates@.len() - 1 {
                                assert(updates@[i] == (#[trigger] ups0[i]));
                                assert(updates@[j] == (#[trigger] ups0[j]));
                            } else {
                                assert(updates@[i] == (#[trigger] ups0[i]));
                                assert(updates@[j] == gu);
                                assert(suffix_has(ep0, n, ups0[i].new_row.key));
                            }
                        }
                        assert forall|k2: u64| #[trigger]
                            l0.dom().contains(k2) && suffix_has(
                            ep0,
                            n - 1,
                            k2,
                        ) implies exists|i: int|
                            0 <= i < updates@.len() && (#[trigger] updates@[i]).new_row.key
                                == k2 by {
                            if k2 == k {
                                assert((#[trigger] updates@[updates@.len() - 1]).new_row.key == k2);
                            } else {
                                assert(suffix_has(ep0, n, k2));
                                let i = choose|i: int|
                                    0 <= i < ups0.len() && (#[trigger] ups0[i]).new_row.key == k2;
                                assert((#[trigger] updates@[i]) == ups0[i]);
                            }
                        }
                        assert forall|i: int|
                            0 <= i < inserts@.len() implies insert_item_ok(
                            e0,
                            l0,
                            #[trigger] inserts@[i],
                        ) && suffix_has(ep0, n - 1, inserts@[i].row.key) by {
                            assert(suffix_has(ep0, n, inserts@[i].row.key));
                        }
                        assert forall|k2: u64|
                            !l0.dom().contains(k2) && #[trigger] suffix_has(
                            ep0,
                            n - 1,
                            k2,
                        ) implies exists|i: int|
                            0 <= i < inserts@.len() && (#[trigger] inserts@[i]).row.key == k2 by {
                            assert(k2 != k);
                            assert(suffix_has(ep0, n, k2));
                        }
                    }
                },
                None => {
                    let m = InsertMessage { row: KeyedRow { key: k, row: p.1 } };
                    let ghost gm: InsertMessage<KeyedRow<R>> = m;
                    proof {
                        assert(!lpre.dom().contains(k));
                        assert(!l0.dom().contains(k));
                        assert(insert_item_ok(e0, l0, gm));
                    }
                    inserts.push(m);
                    proof {
                        assert(inserts@ == ins0.push(gm));
                        assert(inserts@[inserts@.len() - 1] == gm);
                        assert forall|i: int|
                            0 <= i < inserts@.len() implies insert_item_ok(
                            e0,
                            l0,
                            #[trigger] inserts@[i],
                        ) && suffix_has(ep0, n - 1, inserts@[i].row.key) by {
                            if i < inserts@.len() - 1 {
                                assert(inserts@[i] == (#[trigger] ins0[i]));
                                assert(suffix_has(ep0, n, ins0[i].row.key));
                            } else {
                                assert(inserts@[i] == gm);
                                assert(suffix_has(ep0, n - 1, k));
                            }
                        }
                        assert forall|i: int, j: int|
                            0 <= i < j < inserts@.len() implies (#[trigger] inserts@[i]).row.key
                            != (#[trigger] inserts@[j]).row.key by {
                            if j < inserts@.len() - 1 {
                                assert(inserts@[i] == (#[trigger] ins0[i]));
                                assert(inserts@[j] == (#[trigger] ins0[j]));
                            } else {
                                assert(inserts@[i] == (#[trigger] ins0[i]));
                                assert(inserts@[j] == gm);
                                assert(suffix_has(ep0, n, ins0[i].row.key));
                            }
                        }
                        assert forall|k2: u64|
                            !l0.dom().contains(k2) && #[trigger] suffix_has(
                            ep0,
                            n - 1,
                            k2,
                        ) implies exists|i: int|
                            0 <= i < inserts@.len() && (#[trigger] inserts@[i]).row.key == k2 by {
                            if k2 == k {
                                assert((#[trigger] inserts@[inserts@.len() - 1]).row.key == k2);
                            } else {
                                assert(suffix_has(ep0, n, k2));
                                let i = choose|i: int|
                                    0 <= i < ins0.len() && (#[trigger] ins0[i]).row.key == k2;
                                assert((#[trigger] inserts@[i]) == ins0[i]);
                            }
                        }
                        assert forall|k2: u64| #[trigger]
                            l0.dom().contains(k2) && suffix_has(
                            ep0,
                            n - 1,
                            k2,
                        ) implies exists|i: int|
                            0 <= i < updates@.len() && (#[trigger] updates@[i]).new_row.key
                                == k2 by {
                            assert(k2 != k);
                            assert(suffix_has(ep0, n, k2));
                        }
                        assert forall|i: int|
                            0 <= i < updates@.len() implies update_item_ok(
                            e0,
                            l0,
                            #[trigger] updates@[i],
                        ) && suffix_has(ep0, n - 1, updates@[i].new_row.key) by {
                            assert(suffix_has(ep0, n, updates@[i].new_row.key));
                        }
                    }
                },
            }
        }

        proof {
            lemma_map_of_dom(ep0);
            assert forall|k: u64| #[trigger] e0.dom().contains(k) implies suffix_has(
                ep0,
                0,
                k,
            ) by {
                assert(has_key(ep0, k));
                let i = choose|i: int| 0 <= i < ep0.len() && (#[trigger] ep0[i]).0 == k;
                assert(0 <= i < ep0.len() && (#[trigger] ep0[i]).0 == k);
            }
            assert forall|k: u64| #[trigger] suffix_has(ep0, 0, k) implies e0.dom().contains(
                k,
            ) by {
                let i = choose|i: int| 0 <= i < ep0.len() && (#[trigger] ep0[i]).0 == k;
                assert(has_key(ep0, k));
            }
            assert(updates_match(e0, l0, updates@));
            assert(inserts_match(e0, l0, inserts@));
        }

        let mut left = KeyMap::<R>::new();
        core::mem::swap(&mut left, &mut self.left);
        let mut left_pairs = left.into_pairs();
        let ghost lp0: Seq<(u64, R)> = left_pairs@;
        let mut deletes: Vec<DeleteMessage<KeyedRow<R>>> = Vec::new();

        proof {
            lemma_map_of_dom(lp0);
            lemma_map_of_index(lp0);
            assert(left_pairs@ =~= lp0.take(left_pairs@.len() as int));
        }

        while left_pairs.len() > 0
            invariant
                distinct_keys(lp0),
                left_pairs@.len() <= lp0.len(),
                left_pairs@ == lp0.take(left_pairs@.len() as int),
                self.entered@ == Map::<u64, R>::empty(),
                self.left@ == Map::<u64, R>::empty(),
                updates_match(e0, l0, updates@),
                inserts_match(e0, l0, inserts@),
                forall|k: u64| #[trigger]
                    map_of(lp0).dom().contains(k) ==> l0.dom().contains(k) && !e0.dom().contains(k)
                        && map_of(lp0)[k] == l0[k],
                forall|k: u64| #[trigger]
                    l0.dom().contains(k) && !e0.dom().contains(k) ==> map_of(lp0).dom().contains(k),
                forall|i: int, j: int|
                    0 <= i < j < deletes@.len() ==> (#[trigger] deletes@[i]).row.key != (
                    #[trigger] deletes@[j]).row.key,
                forall|i: int|
                    0 <= i < deletes@.len() ==> delete_item_ok(e0, l0, #[trigger] deletes@[i])
                        && suffix_has(lp0, left_pairs@.len() as int, deletes@[i].row.key),
                forall|k: u64| #[trigger]
                    suffix_has(lp0, left_pairs@.len() as int, k) ==> exists|i: int|
                        0 <= i < deletes@.len() && (#[trigger] deletes@[i]).row.key == k,
            decreases left_pairs@.len(),
        {
            let ghost n: int = left_pairs@.len() as int;
            let p = left_pairs.pop().unwrap();
            let k = p.0;
            proof {
                assert(left_pairs@ =~= lp0.take(n - 1));
                assert(lp0.take(n)[n - 1] == lp0[n - 1]);
                assert(p == lp0[n - 1]);
                lemma_map_of_index(lp0);
                assert(map_of(lp0).dom().contains((#[trigger] lp0[n - 1]).0));
                assert(l0.dom().contains(k) && !e0.dom().contains(k) && l0[k] == p.1);
                assert forall|k2: u64|
                    suffix_has(lp0, n - 1, k2) <==> (suffix_has(lp0, n, k2) || k2 == k) by {
                    if suffix_has(lp0, n - 1, k2) {
                        let j = choose|j: int| n - 1 <= j < lp0.len() && (#[trigger] lp0[j]).0 == k2;
                        if j >= n {
                            assert(suffix_has(lp0, n, k2));
                        }
                    }
                    if suffix_has(lp0, n, k2) {
                        let j = choose|j: int| n <= j < lp0.len() && (#[trigger] lp0[j]).0 == k2;
                        assert(n - 1 <= j < lp0.len() && (#[trigger] lp0[j]).0 == k2);
                    }
                    if k2 == k {
                        assert(n - 1 <= n - 1 < lp0.len() && (#[trigger] lp0[n - 1]).0 == k2);
                    }
                }
                assert(!suffix_has(lp0, n, k)) by {
                    if suffix_has(lp0, n, k) {
                        let j = choose|j: int| n <= j < lp0.len() && (#[trigger] lp0[j]).0 == k;
                        assert((#[trigger] lp0[n - 1]).0 != (#[trigger] lp0[j]).0);
                    }
                }
            }
            let ghost dels0: Seq<DeleteMessage<KeyedRow<R>>> = deletes@;
            let m = DeleteMessage { row: KeyedRow { key: k, row: p.1 } };
            let ghost gm: DeleteMessage<KeyedRow<R>> = m;
            proof {
                assert(delete_item_ok(e0, l0, gm));
            }
            deletes.push(m);
            proof {
                assert(deletes@ == dels0.push(gm));
                assert(deletes@[deletes@.len() - 1] == gm);
                assert forall|i: int|
                    0 <= i < deletes@.len() implies delete_item_ok(e0, l0, #[trigger] deletes@[i])
                    && suffix_has(lp0, n - 1, deletes@[i].row.key) by {
                    if i < deletes@.len() - 1 {
                        assert(deletes@[i] == (#[trigger] dels0[i]));
                        assert(suffix_has(lp0, n, dels0[i].row.key));
                    } else {
                        assert(deletes@[i] == gm);
                        assert(suffix_has(lp0, n - 1, k));
                    }
                }
                assert forall|i: int, j: int|
                    0 <= i < j < deletes@.len() implies (#[trigger] deletes@[i]).row.key != (
                #[trigger] deletes@[j]).row.key by {
                    if j < deletes@.len() - 1 {
                        assert(deletes@[i] == (#[trigger] dels0[i]));
                        assert(deletes@[j] == (#[trigger] dels0[j]));
                    } else {
                        assert(deletes@[i] == (#[trigger] dels0[i]));
                        assert(deletes@[j] == gm);
                        assert(suffix_has(lp0, n, dels0[i].row.key));
                    }
                }
                assert forall|k2: u64| #[trigger]
                    suffix_has(lp0, n - 1, k2) implies exists|i: int|
                    0 <= i < deletes@.len() && (#[trigger] deletes@[i]).row.key == k2 by {
                    if k2 == k {
                        assert((#[trigger] deletes@[deletes@.len() - 1]).row.key == k2);
                    } else {
                        assert(suffix_has(lp0, n, k2));
                        let i = choose|i: int|
                            0 <= i < dels0.len() && (#[trigger] dels0[i]).row.key == k2;
                        assert((#[trigger] deletes@[i]) == dels0[i]);
                    }
                }
            }
        }

        proof {
            lemma_map_of_dom(lp0);
            assert forall|k: u64| #[trigger]
                l0.dom().contains(k) && !e0.dom().contains(k) implies suffix_has(lp0, 0, k) by {
                assert(map_of(lp0).dom().contains(k));
                assert(has_key(lp0, k));
                let i = choose|i: int| 0 <= i < lp0.len() && (#[trigger] lp0[i]).0 == k;
                assert(0 <= i < lp0.len() && (#[trigger] lp0[i]).0 == k);
            }
            assert(deletes_match(e0, l0, deletes@));
        }

        CycleOutput { inserts, updates, deletes }
    }
}

/// Reconciles one cycle's events in a single call: buffers every event in
/// order (so a later event for a key wins within its direction) and closes
/// the cycle.
pub fn reconcile_cycle<R>(events: Vec<ViewEvent<R>>) -> (out: CycleOutput<R>)
    ensures
        updates_match(entered_of(events@), left_of(events@), out.updates@),
        inserts_match(entered_of(events@), left_of(events@), out.inserts@),
        deletes_match(entered_of(events@), left_of(events@), out.deletes@),
{
    let ghost evs: Seq<ViewEvent<R>> = events@;
    let mut events = events;
    let mut rec = Reconciler::<R>::new();
    proof {
        assert(evs.skip(0) =~= evs);
        assert(evs.take(0) =~= Seq::<ViewEvent<R>>::empty());
    }
    while events.len() > 0
        invariant
            events@.len() <= evs.len(),
            events@ == evs.skip(evs.len() - events@.len()),
            rec.entered_map() == entered_of(evs.take(evs.len() - events@.len())),
            rec.left_map() == left_of(evs.take(evs.len() - events@.len())),
        decreases events@.len(),
    {
        let ghost d: int = evs.len() - events@.len();
        let ev = events.remove(0);
        proof {
            assert(ev == evs.skip(d)[0]);
            assert(ev == evs[d]);
            assert(events@ =~= evs.skip(d + 1));
            assert(evs.take(d + 1).drop_last() =~= evs.take(d));
            assert(evs.take(d + 1).last() == evs[d]);
        }
        rec.record(ev);
    }
    proof {
        assert(evs.take(evs.len() as int) =~= evs);
    }
    rec.end_cycle()
}

/// For a key buffered on both sides of one cycle, the cycle's output holds
/// exactly one update for that key -- its old row the left-side row, its
/// new row the entered-side row -- and no insert and no delete for it.
pub proof fn lemma_update_for_shared_key<R>(
    e: Map<u64, R>,
    l: Map<u64, R>,
    out: &CycleOutput<R>,
    k: u64,
)
    requires
        updates_match(e, l, out.updates@),
        inserts_match(e, l, out.inserts@),
        deletes_match(e, l, out.deletes@),
        e.dom().contains(k),
        l.dom().contains(k),
    ensures
        exists|i: int| 0 <= i < out.updates@.len() && (#[trigger] out.updates@[i]).new_row.key == k,
        forall|i: int, j: int|
            0 <= i < out.updates@.len() && 0 <= j < out.updates@.len() && (
            #[trigger] out.updates@[i]).new_row.key == k && (#[trigger] out.updates@[j]).new_row.key
                == k ==> i == j,
        forall|i: int|
            0 <= i < out.updates@.len() && (#[trigger] out.updates@[i]).new_row.key == k
                ==> out.updates@[i].old_row.key == k && out.updates@[i].old_row.row == l[k]
                && out.updates@[i].new_row.row == e[k],
        forall|i: int| 0 <= i < out.inserts@.len() ==> (#[trigger] out.inserts@[i]).row.key != k,
        forall|i: int| 0 <= i < out.deletes@.len() ==> (#[trigger] out.deletes@[i]).row.key != k,
{
    assert forall|i: int|
        0 <= i < out.inserts@.len() implies (#[trigger] out.inserts@[i]).row.key != k by {
        assert(insert_item_ok(e, l, out.inserts@[i]));
    }
    assert forall|i: int|
        0 <= i < out.deletes@.len() implies (#[trigger] out.deletes@[i]).row.key != k by {
        assert(delete_item_ok(e, l, out.deletes@[i]));
    }
}

/// For a key buffered only on the "entered" side of one cycle, the
/// cycle's output holds exactly one insert for that key, carrying the
/// entered-side row, and no update and no delete for it.
pub proof fn lemma_insert_for_entered_only_key<R>(
    e: Map<u64, R>,
    l: Map<u64, R>,
    out: &CycleOutput<R>,
    k: u64,
)
    requires
        updates_match(e, l, out.updates@),
        inserts_match(e, l, out.inserts@),
        deletes_match(e, l, out.deletes@),
        e.dom().contains(k),
        !l.dom().contains(k),
    ensures
        exists|i: int| 0 <= i < out.inserts@.len() && (#[trigger] out.inserts@[i]).row.key == k,
        forall|i: int, j: int|
            0 <= i < out.inserts@.len() && 0 <= j < out.inserts@.len() && (
            #[trigger] out.inserts@[i]).row.key == k && (#[trigger] out.inserts@[j]).row.key == k
                ==> i == j,
        forall|i: int|
            0 <= i < out.inserts@.len() && (#[trigger] out.inserts@[i]).row.key == k
                ==> out.inserts@[i].row.row == e[k],
        forall|i: int|
            0 <= i < out.updates@.len() ==> (#[trigger] out.updates@[i]).new_row.key != k,
        forall|i: int| 0 <= i < out.deletes@.len() ==> (#[trigger] out.deletes@[i]).row.key != k,
{
    assert forall|i: int|
        0 <= i < out.updates@.len() implies (#[trigger] out.updates@[i]).new_row.key != k by {
        assert(update_item_ok(e, l, out.updates@[i]));
    }
    assert forall|i: int|
        0 <= i < out.deletes@.len() implies (#[trigger] out.deletes@[i]).row.key != k by {
        assert(delete_item_ok(e, l, out.deletes@[i]));
    }
}

/// For a key buffered only on the "left" side of one cycle, the cycle's
/// output holds exactly one delete for that key, carrying the left-side
/// row, and no insert and no update for it.
pub proof fn lemma_delete_for_left_only_key<R>(
    e: Map<u64, R>,
    l: Map<u64, R>,
    out: &CycleOutput<R>,
    k: u64,
)
    requires
        updates_match(e, l, out.updates@),
        inserts_match(e, l, out.inserts@),
        deletes_match(e, l, out.deletes@),
        l.dom().contains(k),
        !e.dom().contains(k),
    ensures
        exists|i: int| 0 <= i < out.deletes@.len() && (#[trigger] out.deletes@[i]).row.key == k,
        forall|i: int, j: int|
            0 <= i < out.deletes@.len() && 0 <= j < out.deletes@.len() && (
            #[trigger] out.deletes@[i]).row.key == k && (#[trigger] out.deletes@[j]).row.key == k
                ==> i == j,
        forall|i: int|
            0 <= i < out.deletes@.len() && (#[trigger] out.deletes@[i]).row.key == k
                ==> out.deletes@[i].row.row == l[k],
        forall|i: int|
            0 <= i < out.updates@.len() ==> (#[trigger] out.updates@[i]).new_row.key != k,
        forall|i: int| 0 <= i < out.inserts@.len() ==> (#[trigger] out.inserts@[i]).row.key != k,
{
    assert forall|i: int|
        0 <= i < out.updates@.len() implies (#[trigger] out.updates@[i]).new_row.key != k by {
        assert(update_item_ok(e, l, out.updates@[i]));
    }
    assert forall|i: int|
        0 <= i < out.inserts@.len() implies (#[trigger] out.inserts@[i]).row.key != k by {
        assert(insert_item_ok(e, l, out.inserts@[i]));
    }
}

/// An empty cycle emits no notification: with both cycle mappings empty,
/// the output is empty in every direction. (That the reconciler also
/// leaves empty buffers for the next cycle is part of the contract of
/// closing a cycle.)
pub proof fn lemma_empty_cycle_is_silent<R>(out: &CycleOutput<R>)
    requires
        updates_match(Map::<u64, R>::empty(), Map::<u64, R>::empty(), out.updates@),
        inserts_match(Map::<u64, R>::empty(), Map::<u64, R>::empty(), out.inserts@),
        deletes_match(Map::<u64, R>::empty(), Map::<u64, R>::empty(), out.deletes@),
    ensures
        out.updates@.len() == 0,
        out.inserts@.len() == 0,
        out.deletes@.len() == 0,
{
    if out.updates@.len() > 0 {
        assert(update_item_ok(
            Map::<u64, R>::empty(),
            Map::<u64, R>::empty(),
            (#[trigger] out.updates@[0]),
        ));
    }
    if out.inserts@.len() > 0 {
        assert(insert_item_ok(
            Map::<u64, R>::empty(),
            Map::<u64, R>::empty(),
            (#[trigger] out.inserts@[0]),
        ));
    }
    if out.deletes@.len() > 0 {
        assert(delete_item_ok(
            Map::<u64, R>::empty(),
            Map::<u64, R>::empty(),
            (#[trigger] out.deletes@[0]),
        ));
    }
}

} // verus!
