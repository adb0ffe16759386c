//! Stack-discipline root registration.
//!
//! A `Frame` snapshots the head of the root list at creation; `local` and
//! `local_value` register fresh slots, starting a new root table every five
//! registrations (rotation); `end` restores the snapshot, unregistering every
//! slot the frame ever created.  Frames must be ended in strict reverse
//! creation order; the contracts here state exactly how the root list moves
//! so that a caller can prove the list returns to its pre-frame state.
//!
//! Teardown is an explicit call in this model: binding it to lexical scope
//! exit is the caller's obligation, as it is for the foreign runtime itself.

use vstd::prelude::*;

use crate::raw;
use crate::runtime::{word_ok, RootTable, Runtime};
use crate::value::Value;

verus! {

/// The slot indices registered by the tables from `k` onward, in
/// registration order.
pub open spec fn flatten_tables(ts: Seq<Seq<usize>>, k: int) -> Seq<usize>
    decreases ts.len() - k,
{
    if k < 0 || k >= ts.len() {
        Seq::empty()
    } else {
        ts[k] + flatten_tables(ts, k + 1)
    }
}

/// Appending a new table appends its entries to the flattened roots.
pub proof fn lemma_flatten_push(ts: Seq<Seq<usize>>, x: Seq<usize>, k: int)
    requires
        0 <= k <= ts.len(),
    ensures
        flatten_tables(ts.push(x), k) == flatten_tables(ts, k) + x,
    decreases ts.len() - k,
{
    if k == ts.len() {
        assert(flatten_tables(ts.push(x), k + 1) =~= Seq::<usize>::empty());
        assert(ts.push(x)[k] == x);
        assert(flatten_tables(ts.push(x), k) =~= flatten_tables(ts, k) + x);
    } else {
        lemma_flatten_push(ts, x, k + 1);
        assert(ts.push(x)[k] == ts[k]);
        assert(flatten_tables(ts.push(x), k) =~= flatten_tables(ts, k) + x);
    }
}

/// Appending an entry to the last table appends it to the flattened roots.
pub proof fn lemma_flatten_update_last(ts: Seq<Seq<usize>>, e: usize, k: int)
    requires
        ts.len() >= 1,
        0 <= k < ts.len(),
    ensures
        flatten_tables(ts.update(ts.len() - 1, ts.last().push(e)), k) == flatten_tables(
            ts,
            k,
        ).push(e),
    decreases ts.len() - k,
{
    let up = ts.update(ts.len() - 1, ts.last().push(e));
    if k == ts.len() - 1 {
        assert(flatten_tables(up, k + 1) =~= Seq::<usize>::empty());
        assert(flatten_tables(ts, k + 1) =~= Seq::<usize>::empty());
        assert(up[k] == ts.last().push(e));
        assert(flatten_tables(up, k) =~= flatten_tables(ts, k).push(e));
    } else {
        lemma_flatten_update_last(ts, e, k + 1);
        assert(up[k] == ts[k]);
        assert(flatten_tables(up, k) =~= flatten_tables(ts, k).push(e));
    }
}

/// Garbage collector frame: a snapshot of the root-list head and the fill
/// index of the frame's newest root table.
pub struct Frame {
    pub local_roots: usize,
    pub index: usize,
}

impl Frame {
    /// The root-list length captured at creation.
    pub open spec fn base(self) -> int {
        self.local_roots as int
    }

    /// The frame agrees with the runtime: every table it created is full
    /// except the newest, whose fill level is `index`.
    pub open spec fn wf(self, rt: Runtime) -> bool {
        let ts = rt.model().tables;
        &&& self.base() <= ts.len()
        &&& self.index <= 5
        &&& (ts.len() == self.base() ==> self.index == 0)
        &&& (ts.len() > self.base() ==> 1 <= self.index && ts.last().len() == self.index)
        &&& forall|t: int| self.base() <= t < ts.len() - 1 ==> (#[trigger] ts[t]).len() == 5
    }

    /// How many locals this frame has registered.
    pub open spec fn locals(self, rt: Runtime) -> int {
        let ts = rt.model().tables;
        if ts.len() == self.base() {
            0
        } else {
            5 * (ts.len() - self.base() - 1) + self.index
        }
    }

    /// The slot indices this frame has registered, oldest first.
    pub open spec fn roots(self, rt: Runtime) -> Seq<usize> {
        flatten_tables(rt.model().tables, self.base())
    }

    /// Open a frame: snapshot the current head of the root list.
    pub fn new(rt: &Runtime) -> (f: Frame)
        ensures
            f.local_roots == rt.model().tables.len(),
            f.index == 0,
            f.wf(*rt),
            f.locals(*rt) == 0,
            f.roots(*rt) == Seq::<usize>::empty(),
    {
        let f = Frame { local_roots: rt.tables.len(), index: 0 };
        proof {
            assert(f.roots(*rt) =~= Seq::<usize>::empty());
        }
        f
    }

    /// Register a fresh unit-initialized slot with the collector and hand
    /// back its value.  Every fifth registration starts a new root table
    /// (rotation), linking it as the new list head; previously registered
    /// slots all stay registered.
    pub fn local(&mut self, rt: &mut Runtime) -> (v: Value)
        requires
            old(rt).wf(),
            old(self).wf(*old(rt)),
            old(self).locals(*old(rt)) < 0xFFFF_FFFF,
            old(rt).model().tables.len() < 0xFFFF_FFFF_0000,
            old(rt).model().slots.len() < 0xFFFF_FFFF_0000,
        ensures
            final(rt).wf(),
            final(self).wf(*final(rt)),
            final(self).local_roots == old(self).local_roots,
            v.0 == raw::UNIT,
            final(rt).model().mem == old(rt).model().mem,
            final(rt).model().named == old(rt).model().named,
            final(rt).model().globals == old(rt).model().globals,
            final(rt).model().handler == old(rt).model().handler,
            final(rt).model().slots == old(rt).model().slots.push(raw::UNIT),
            final(self).locals(*final(rt)) == old(self).locals(*old(rt)) + 1,
            final(rt).model().tables.len() - old(self).base() == (final(self).locals(*final(rt))
                + 4) / 5,
            final(self).roots(*final(rt)) == old(self).roots(*old(rt)).push(
                old(rt).model().slots.len() as usize,
            ),
            (if old(self).index == 0 || old(self).index == 5 {
                final(rt).model().tables == old(rt).model().tables.push(
                    seq![old(rt).model().slots.len() as usize],
                )
            } else {
                final(rt).model().tables == old(rt).model().tables.update(
                    old(rt).model().tables.len() - 1,
                    old(rt).model().tables.last().push(old(rt).model().slots.len() as usize),
                )
            }),
    {
        let slot: usize = rt.slots.len();
        rt.slots.push(raw::UNIT);

        let mut idx = self.index;
        if idx == 5 {
            idx = 0;
        }
        if idx == 0 {
            rt.tables.push(RootTable { entries: Vec::new() });
        }
        let last = rt.tables.len() - 1;
        let t = &mut rt.tables[last];
        t.entries.push(slot);
        self.index = idx + 1;

        proof {
            let ots = old(rt).model().tables;
            let oslots = old(rt).model().slots;
            assert(rt.model().mem =~= old(rt).model().mem);
            assert(rt.model().named =~= old(rt).model().named);
            assert(rt.model().slots =~= oslots.push(raw::UNIT));
            if old(self).index == 0 || old(self).index == 5 {
                assert(rt.model().tables =~= ots.push(seq![slot]));
                lemma_flatten_push(ots, seq![slot], old(self).base());
                assert(flatten_tables(ots, old(self).base()) + seq![slot] =~= flatten_tables(
                    ots,
                    old(self).base(),
                ).push(slot));
            } else {
                assert(rt.model().tables =~= ots.update(ots.len() - 1, ots.last().push(slot)));
                lemma_flatten_update_last(ots, slot, old(self).base());
            }
            assert(raw::spec_is_long(raw::UNIT)) by {
                assert(1u64 & 1 == 1) by (bit_vector);
            }
            let nts = rt.model().tables;
            assert forall|t2: int| 0 <= t2 < nts.len() implies (#[trigger] nts[t2]).len() <= 5 by {
                if t2 < ots.len() - 1 {
                    assert(nts[t2] == ots[t2]);
                } else if t2 == ots.len() - 1 && t2 < nts.len() - 1 {
                    assert(nts[t2] == ots[t2]);
                }
            }
            assert forall|t2: int, j: int|
                0 <= t2 < nts.len() && 0 <= j < nts[t2].len() implies #[trigger] nts[t2][j]
                < rt.model().slots.len() by {
                if t2 < ots.len() && !(t2 == ots.len() - 1 && nts[t2] != ots[t2]) {
                    assert(nts[t2] == ots[t2]);
                    assert(ots[t2][j] < oslots.len());
                }
            }
            assert forall|i: int| 0 <= i < rt.model().slots.len() implies word_ok(
                rt.mem().len() as int,
                #[trigger] rt.model().slots[i],
            ) by {
                if i < oslots.len() {
                    assert(rt.model().slots[i] == oslots[i]);
                }
            }
            assert forall|i: int| 0 <= i < rt.model().globals.len() implies word_ok(
                rt.mem().len() as int,
                #[trigger] rt.model().globals[i],
            ) by {
                assert(rt.model().globals[i] == old(rt).model().globals[i]);
            }
        }
        Value(raw::UNIT)
    }

    /// Register a fresh slot and copy an existing value into it, promoting a
    /// value of unknown provenance into a rooted one.
    pub fn local_value(&mut self, rt: &mut Runtime, v: Value) -> (r: Value)
        requires
            old(rt).wf(),
            old(self).wf(*old(rt)),
            word_ok_for(*old(rt), v),
            old(self).locals(*old(rt)) < 0xFFFF_FFFF,
            old(rt).model().tables.len() < 0xFFFF_FFFF_0000,
            old(rt).model().slots.len() < 0xFFFF_FFFF_0000,
        ensures
            final(rt).wf(),
            final(self).wf(*final(rt)),
            final(self).local_roots == old(self).local_roots,
            r == v,
            final(rt).model().mem == old(rt).model().mem,
            final(rt).model().named == old(rt).model().named,
            final(rt).model().globals == old(rt).model().globals,
            final(rt).model().handler == old(rt).model().handler,
            final(rt).model().slots == old(rt).model().slots.push(v.0),
            final(self).locals(*final(rt)) == old(self).locals(*old(rt)) + 1,
            final(self).roots(*final(rt)) == old(self).roots(*old(rt)).push(
                old(rt).model().slots.len() as usize,
            ),
    {
        let slot: usize = rt.slots.len();
        self.local(rt);
        rt.slots[slot] = v.0;
        proof {
            assert(rt.model().slots =~= old(rt).model().slots.push(v.0));
            assert(rt.model().tables == old(rt).model().tables.push(seq![slot]) || rt.model().tables
                == old(rt).model().tables.update(
                old(rt).model().tables.len() - 1,
                old(rt).model().tables.last().push(slot),
            ));
        }
        Value(v.0)
    }

    /// Finish the frame: restore the root-list head captured at creation,
    /// unregistering every table this frame linked in.  Ending frames in
    /// strict reverse creation order restores the list exactly.
    pub fn end(self, rt: &mut Runtime)
        requires
            old(rt).wf(),
            self.local_roots <= old(rt).model().tables.len(),
        ensures
            final(rt).wf(),
            final(rt).model().tables == old(rt).model().tables.subrange(0, self.base()),
            final(rt).model().mem == old(rt).model().mem,
            final(rt).model().slots == old(rt).model().slots,
            final(rt).model().globals == old(rt).model().globals,
            final(rt).model().named == old(rt).model().named,
            final(rt).model().handler == old(rt).model().handler,
    {
        rt.tables.truncate(self.local_roots);
        proof {
            assert(rt.model().tables =~= old(rt).model().tables.subrange(0, self.base()));
            assert(rt.model().mem =~= old(rt).model().mem);
            assert(rt.model().named =~= old(rt).model().named);
            let ots = old(rt).model().tables;
            let nts = rt.model().tables;
            assert forall|t2: int| 0 <= t2 < nts.len() implies (#[trigger] nts[t2]).len() <= 5 by {
                assert(nts[t2] == ots[t2]);
            }
            assert forall|t2: int, j: int|
                0 <= t2 < nts.len() && 0 <= j < nts[t2].len() implies #[trigger] nts[t2][j]
                < rt.model().slots.len() by {
                assert(nts[t2] == ots[t2]);
            }
            assert forall|i: int| 0 <= i < rt.model().slots.len() implies word_ok(
                rt.mem().len() as int,
                #[trigger] rt.model().slots[i],
            ) by {
                assert(rt.model().slots[i] == old(rt).model().slots[i]);
            }
            assert forall|i: int| 0 <= i < rt.model().globals.len() implies word_ok(
                rt.mem().len() as int,
                #[trigger] rt.model().globals[i],
            ) by {
                assert(rt.model().globals[i] == old(rt).model().globals[i]);
            }
        }
    }
}

/// Is the value meaningful over the runtime's heap?
pub open spec fn word_ok_for(rt: Runtime, v: Value) -> bool {
    crate::runtime::word_ok(rt.mem().len() as int, v.0)
}

} // verus!
