//! Recursive duplication of a block graph, with its correctness argument.
//!
//! The clone walks the source graph with an explicit worklist and a
//! visited map keyed by source address, so cycles terminate and depth never
//! grows the native call stack.  Blocks whose tag marks them unscanned are
//! copied as opaque contents; scanned blocks are copied field by field, each
//! pointer field redirected to the copy of its target.
//!
//! Structural equality of two possibly cyclic graphs is stated as
//! depth-bounded equivalence at every depth (`equiv_at`): the copy map's
//! invariant (`all_copied`) implies it by induction on depth.

use vstd::prelude::*;

use crate::raw;
use crate::runtime::{
    block_at, block_fields, lemma_addr_bits, lemma_extends_block, mem_extends, mem_wf, spec_addr,
    spec_addr_index, word_ok, word_points, BlockModel, BodyModel, Runtime,
};
use crate::value::Value;

verus! {

/// Structural equivalence of the values `a` and `b` over heap `m`, observed
/// to `depth` dereferences: equal immediates, or blocks of equal tag whose
/// unscanned contents are equal and whose scanned fields are pairwise
/// equivalent one level shallower.  Equivalence at every depth is structural
/// equality of the (possibly cyclic) graphs.
pub open spec fn equiv_at(m: Seq<BlockModel>, a: u64, b: u64, depth: nat) -> bool
    decreases depth,
{
    if raw::spec_is_long(a) || raw::spec_is_long(b) {
        a == b
    } else if !word_points(m.len() as int, a) || !word_points(m.len() as int, b) {
        false
    } else {
        let ba = block_at(m, a);
        let bb = block_at(m, b);
        ba.tag == bb.tag && (match ba.body {
            BodyModel::Bytes(s) => bb.body == BodyModel::Bytes(s),
            BodyModel::Raw(ws) => bb.body == BodyModel::Raw(ws),
            BodyModel::Fields(fa) => (bb.body matches BodyModel::Fields(fb) && fa.len() == fb.len()
                && (depth > 0 ==> forall|i: int|
                0 <= i < fa.len() ==> equiv_at(m, fa[i], #[trigger] fb[i], (depth - 1) as nat))),
        })
    }
}

/// Does the copy map send source index `k` somewhere?
pub open spec fn maps_to(mp: Seq<Option<usize>>, k: int) -> bool {
    0 <= k < mp.len() && mp[k] is Some
}

/// The destination index the copy map assigns to source index `k`.
pub open spec fn target(mp: Seq<Option<usize>>, k: int) -> int {
    mp[k]->0 as int
}

/// The copied word standing for source word `w`: immediates stand for
/// themselves, a pointer is redirected to the copy of its target.
pub open spec fn word_corresponds(mp: Seq<Option<usize>>, w: u64, w2: u64) -> bool {
    if raw::spec_is_long(w) {
        w2 == w
    } else {
        &&& maps_to(mp, spec_addr_index(w))
        &&& w2 == spec_addr(target(mp, spec_addr_index(w)))
    }
}

/// Source block `s` has a finished copy: same tag, equal opaque contents
/// for unscanned blocks, corresponding fields for scanned blocks.  The copy
/// lives strictly beyond the source region, so it is no source itself.
pub open spec fn copied(m: Seq<BlockModel>, mp: Seq<Option<usize>>, s: int) -> bool {
    let d = target(mp, s);
    &&& 0 <= s < mp.len() <= m.len()
    &&& mp.len() <= d < m.len()
    &&& m[d].tag == m[s].tag
    &&& (match m[s].body {
        BodyModel::Bytes(bs) => m[d].body == BodyModel::Bytes(bs),
        BodyModel::Raw(ws) => m[d].body == BodyModel::Raw(ws),
        BodyModel::Fields(f) => (m[d].body matches BodyModel::Fields(g) && g.len() == f.len()
            && forall|i: int| 0 <= i < f.len() ==> word_corresponds(mp, f[i], #[trigger] g[i])),
    })
}

/// Every mapped source block has a finished copy.
pub open spec fn all_copied(m: Seq<BlockModel>, mp: Seq<Option<usize>>) -> bool {
    forall|s: int| maps_to(mp, s) ==> copied(m, mp, s)
}

/// A finished copy map yields structural equivalence at every depth.
pub proof fn lemma_copied_equiv(m: Seq<BlockModel>, mp: Seq<Option<usize>>, s: int, depth: nat)
    requires
        mem_wf(m),
        all_copied(m, mp),
        maps_to(mp, s),
    ensures
        equiv_at(m, spec_addr(s), spec_addr(target(mp, s)), depth),
    decreases depth,
{
    let d = target(mp, s);
    assert(copied(m, mp, s));
    lemma_addr_bits(s);
    lemma_addr_bits(d);
    let a = spec_addr(s);
    let b = spec_addr(d);
    assert(block_at(m, a) == m[s]);
    assert(block_at(m, b) == m[d]);
    match m[s].body {
        BodyModel::Fields(f) => {
            let g = block_fields(m[d]);
            if depth > 0 {
                assert forall|i: int| 0 <= i < f.len() implies equiv_at(
                    m,
                    f[i],
                    #[trigger] g[i],
                    (depth - 1) as nat,
                ) by {
                    assert(word_corresponds(mp, f[i], g[i]));
                    if raw::spec_is_long(f[i]) {
                        assert(g[i] == f[i]);
                    } else {
                        let k2 = spec_addr_index(f[i]);
                        assert(crate::runtime::block_wf(m.len() as int, m[s]));
                        assert(word_ok(m.len() as int, f[i]));
                        lemma_copied_equiv(m, mp, k2, (depth - 1) as nat);
                        crate::runtime::lemma_addr_roundtrip(f[i]);
                    }
                }
            }
        },
        BodyModel::Bytes(_) => {
        },
        BodyModel::Raw(_) => {
        },
    }
}

/// Structural equivalence survives any heap extension.
pub proof fn lemma_equiv_extends(
    m1: Seq<BlockModel>,
    m2: Seq<BlockModel>,
    a: u64,
    b: u64,
    depth: nat,
)
    requires
        equiv_at(m1, a, b, depth),
        mem_extends(m2, m1),
    ensures
        equiv_at(m2, a, b, depth),
    decreases depth,
{
    if !raw::spec_is_long(a) && !raw::spec_is_long(b) {
        lemma_extends_block(m1, m2, a);
        lemma_extends_block(m1, m2, b);
        let ba = block_at(m1, a);
        let bb = block_at(m1, b);
        match ba.body {
            BodyModel::Fields(fa) => {
                let fb = block_fields(bb);
                if depth > 0 {
                    assert forall|i: int| 0 <= i < fa.len() implies equiv_at(
                        m2,
                        fa[i],
                        #[trigger] fb[i],
                        (depth - 1) as nat,
                    ) by {
                        assert(equiv_at(m1, fa[i], fb[i], (depth - 1) as nat));
                        lemma_equiv_extends(m1, m2, fa[i], fb[i], (depth - 1) as nat);
                    }
                }
            },
            BodyModel::Bytes(_) => {
            },
            BodyModel::Raw(_) => {
            },
        }
    }
}

/// Structural equivalence is symmetric.
pub proof fn lemma_equiv_sym(m: Seq<BlockModel>, a: u64, b: u64, depth: nat)
    requires
        equiv_at(m, a, b, depth),
    ensures
        equiv_at(m, b, a, depth),
    decreases depth,
{
    if !raw::spec_is_long(a) && !raw::spec_is_long(b) {
        let ba = block_at(m, a);
        let bb = block_at(m, b);
        match ba.body {
            BodyModel::Fields(fa) => {
                let fb = block_fields(bb);
                if depth > 0 {
                    assert forall|i: int| 0 <= i < fb.len() implies equiv_at(
                        m,
                        fb[i],
                        #[trigger] fa[i],
                        (depth - 1) as nat,
                    ) by {
                        assert(equiv_at(m, fa[i], fb[i], (depth - 1) as nat));
                        lemma_equiv_sym(m, fa[i], fb[i], (depth - 1) as nat);
                    }
                }
            },
            BodyModel::Bytes(_) => {
            },
            BodyModel::Raw(_) => {
            },
        }
    }
}

/// Structural equivalence is transitive.
pub proof fn lemma_equiv_trans(m: Seq<BlockModel>, a: u64, b: u64, c: u64, depth: nat)
    requires
        equiv_at(m, a, b, depth),
        equiv_at(m, b, c, depth),
    ensures
        equiv_at(m, a, c, depth),
    decreases depth,
{
    if raw::spec_is_long(a) || raw::spec_is_long(b) || raw::spec_is_long(c) {
    } else {
        let ba = block_at(m, a);
        let bb = block_at(m, b);
        let bc = block_at(m, c);
        match ba.body {
            BodyModel::Fields(fa) => {
                let fb = block_fields(bb);
                let fc = block_fields(bc);
                if depth > 0 {
                    assert forall|i: int| 0 <= i < fa.len() implies equiv_at(
                        m,
                        fa[i],
                        #[trigger] fc[i],
                        (depth - 1) as nat,
                    ) by {
                        assert(equiv_at(m, fa[i], fb[i], (depth - 1) as nat));
                        assert(equiv_at(m, fb[i], fc[i], (depth - 1) as nat));
                        lemma_equiv_trans(m, fa[i], fb[i], fc[i], (depth - 1) as nat);
                    }
                }
            },
            BodyModel::Bytes(_) => {
            },
            BodyModel::Raw(_) => {
            },
        }
    }
}

/// Cloning the same graph twice gives two structurally equal graphs: a
/// first clone, still equivalent to the source over the extended heap the
/// second clone leaves behind, is equivalent to the second clone at every
/// depth.
pub proof fn lemma_clone_idempotent(
    m1: Seq<BlockModel>,
    m2: Seq<BlockModel>,
    a: u64,
    b1: u64,
    b2: u64,
    depth: nat,
)
    requires
        mem_extends(m2, m1),
        forall|d: nat| equiv_at(m1, a, b1, d),
        forall|d: nat| equiv_at(m2, a, b2, d),
    ensures
        equiv_at(m2, b1, b2, depth),
{
    assert(equiv_at(m1, a, b1, depth));
    lemma_equiv_extends(m1, m2, a, b1, depth);
    assert(equiv_at(m2, a, b2, depth));
    lemma_equiv_sym(m2, a, b1, depth);
    lemma_equiv_trans(m2, b1, a, b2, depth);
}

/// The number of unassigned entries of a copy map.
pub open spec fn count_none(mp: Seq<Option<usize>>) -> nat
    decreases mp.len(),
{
    if mp.len() == 0 {
        0
    } else {
        (if mp[0] is None {
            1nat
        } else {
            0nat
        }) + count_none(mp.drop_first())
    }
}

/// Assigning an unassigned entry decreases the unassigned count by one.
pub proof fn lemma_count_none_update(mp: Seq<Option<usize>>, k: int, d: usize)
    requires
        0 <= k < mp.len(),
        mp[k] is None,
    ensures
        count_none(mp.update(k, Some(d))) == count_none(mp) - 1,
    decreases mp.len(),
{
    let up = mp.update(k, Some(d));
    if k == 0 {
        assert(up.drop_first() =~= mp.drop_first());
    } else {
        assert(up.drop_first() =~= mp.drop_first().update(k - 1, Some(d)));
        lemma_count_none_update(mp.drop_first(), k - 1, d);
    }
}

/// A wholly unassigned map has as many unassigned entries as entries.
pub proof fn lemma_count_none_full(mp: Seq<Option<usize>>)
    requires
        forall|i: int| 0 <= i < mp.len() ==> (#[trigger] mp[i]) is None,
    ensures
        count_none(mp) == mp.len(),
    decreases mp.len(),
{
    if mp.len() > 0 {
        lemma_count_none_full(mp.drop_first());
    }
}

/// An unassigned entry makes the unassigned count positive.
pub proof fn lemma_count_none_pos(mp: Seq<Option<usize>>, k: int)
    requires
        0 <= k < mp.len(),
        mp[k] is None,
    ensures
        count_none(mp) >= 1,
    decreases mp.len(),
{
    if k > 0 {
        lemma_count_none_pos(mp.drop_first(), k - 1);
    }
}

/// A copy map whose entries all lie beyond the source region and grow with
/// the heap: no two sources share a copy.
pub open spec fn injective(mp: Seq<Option<usize>>) -> bool {
    forall|s1: int, s2: int|
        #![trigger mp[s1], mp[s2]]
        maps_to(mp, s1) && maps_to(mp, s2) && s1 != s2 ==> target(mp, s1) != target(mp, s2)
}

/// The copy at `target(mp, s)` is still the untouched exact copy of source
/// block `s`.
pub open spec fn shallow_state(m: Seq<BlockModel>, mp: Seq<Option<usize>>, s: int) -> bool {
    &&& mp.len() <= target(mp, s) < m.len()
    &&& m[target(mp, s)] == m[s]
}

/// Every pointer field of source block `s` has been discovered.
pub open spec fn discovered_ok(m0: Seq<BlockModel>, mp: Seq<Option<usize>>, s: int) -> bool {
    match m0[s].body {
        BodyModel::Fields(f) => forall|i: int|
            0 <= i < f.len() ==> (!raw::spec_is_long(#[trigger] f[i]) ==> maps_to(
                mp,
                spec_addr_index(f[i]),
            )),
        BodyModel::Bytes(_) => true,
        BodyModel::Raw(_) => true,
    }
}

/// A wholly unassigned copy map of length `n`.
fn filled_none(n: usize) -> (r: Vec<Option<usize>>)
    ensures
        r@.len() == n,
        forall|i: int| 0 <= i < n ==> (#[trigger] r@[i]) is None,
{
    let mut r: Vec<Option<usize>> = Vec::new();
    let mut i: usize = 0;
    while i < n
        invariant
            i <= n,
            r@.len() == i,
            forall|j: int| 0 <= j < i ==> (#[trigger] r@[j]) is None,
        decreases n - i,
    {
        r.push(None);
        i = i + 1;
    }
    r
}

/// Duplicate the graph rooted at `v`: discover every reachable source block
/// with a worklist, appending an exact copy of each on first visit, then
/// redirect every pointer field of every copy through the visited map.
pub fn deep_copy(rt: &mut Runtime, v: Value) -> (r: Value)
    requires
        old(rt).wf(),
        word_ok(old(rt).mem().len() as int, v.0),
        2 * old(rt).mem().len() <= crate::runtime::HEAP_MAX,
    ensures
        final(rt).wf(),
        mem_extends(final(rt).mem(), old(rt).mem()),
        (final(rt).model() == crate::runtime::RuntimeModel {
            mem: final(rt).model().mem,
            ..old(rt).model()
        }),
        raw::spec_is_long(v.0) ==> r == v && final(rt).model() == old(rt).model(),
        !raw::spec_is_long(v.0) ==> word_points(final(rt).mem().len() as int, r.0)
            && spec_addr_index(r.0) >= old(rt).mem().len() && r.0 != v.0,
        forall|depth: nat| equiv_at(final(rt).mem(), v.0, r.0, depth),
{
    if v.is_long() {
        return v;
    }
    let n0 = rt.heap.len();
    let ghost m0 = rt.mem();
    let ghost model0 = rt.model();
    let src0 = crate::runtime::index_for(v.0, n0);
    let mut map = filled_none(n0);
    proof {
        lemma_count_none_full(map@);
    }
    let d0 = rt.clone_shallow(src0);
    let ghost map_init = map@;
    map[src0] = Some(d0);
    let mut work: Vec<usize> = vec![src0];
    proof {
        lemma_count_none_update(map_init, src0 as int, d0);
        assert(work@ =~= seq![src0]);
        assert(work@.contains(src0));
    }
    while work.len() > 0
        invariant
            rt.wf(),
            map@.len() == n0,
            n0 == m0.len(),
            mem_wf(m0),
            2 * n0 <= crate::runtime::HEAP_MAX,
            mem_extends(rt.mem(), m0),
            (rt.model() == crate::runtime::RuntimeModel { mem: rt.model().mem, ..model0 }),
            rt.mem().len() + count_none(map@) == 2 * n0,
            injective(map@),
            maps_to(map@, src0 as int),
            src0 < n0,
            forall|s: int| maps_to(map@, s) ==> shallow_state(rt.mem(), map@, s),
            forall|i: int| 0 <= i < work@.len() ==> (#[trigger] work@[i]) < n0 && maps_to(
                map@,
                work@[i] as int,
            ),
            forall|s: int|
                maps_to(map@, s) && !work@.contains(s as usize) ==> discovered_ok(m0, map@, s),
        decreases count_none(map@), work@.len(),
    {
        let ghost work_pre = work@;
        let sopt = work.pop();
        let s: usize = match sopt {
            Some(x) => x,
            None => {
                proof {
                    assert(false);
                }
                0
            },
        };
        proof {
            lemma_addr_bits(s as int);
            assert(work_pre.last() == s);
            assert forall|s2: int|
                maps_to(map@, s2) && !work@.contains(s2 as usize) && s2 != s as int
                implies discovered_ok(m0, map@, s2) by {
                if work_pre.contains(s2 as usize) {
                    let q = choose|q: int| 0 <= q < work_pre.len() && work_pre[q] == s2 as usize;
                    assert(work@[q] == s2 as usize);
                    assert(false);
                }
            }
        }
        let ghost count0 = count_none(map@);
        let ghost wlen0 = work@.len();
        let ws = crate::runtime::addr_for(s);
        if rt.is_scanned_block(ws) {
            let n_fields = rt.field_count(ws);
            let ghost fs = block_fields(m0[s as int]);
            proof {
                assert(rt.mem()[s as int] == m0[s as int]);
                assert(crate::runtime::block_wf(n0 as int, m0[s as int]));
            }
            let mut i: usize = 0;
            while i < n_fields
                invariant
                    rt.wf(),
                    map@.len() == n0,
                    n0 == m0.len(),
                    mem_wf(m0),
                    2 * n0 <= crate::runtime::HEAP_MAX,
                    mem_extends(rt.mem(), m0),
                    (rt.model() == crate::runtime::RuntimeModel { mem: rt.model().mem, ..model0 }),
                    rt.mem().len() + count_none(map@) == 2 * n0,
                    injective(map@),
                    maps_to(map@, src0 as int),
                    src0 < n0,
                    s < n0,
                    maps_to(map@, s as int),
                    ws == spec_addr(s as int),
                    i <= n_fields,
                    (m0[s as int].body matches BodyModel::Fields(f) && f == fs),
                    n_fields == fs.len(),
                    crate::runtime::block_wf(n0 as int, m0[s as int]),
                    forall|j: int| 0 <= j < i ==> (!raw::spec_is_long(#[trigger] fs[j]) ==> maps_to(
                        map@,
                        spec_addr_index(fs[j]),
                    )),
                    forall|s2: int| maps_to(map@, s2) ==> shallow_state(rt.mem(), map@, s2),
                    forall|q: int| 0 <= q < work@.len() ==> (#[trigger] work@[q]) < n0 && maps_to(
                        map@,
                        work@[q] as int,
                    ),
                    forall|s2: int|
                        maps_to(map@, s2) && !work@.contains(s2 as usize) && s2 != s as int
                            ==> discovered_ok(m0, map@, s2),
                    count_none(map@) < count0 || (count_none(map@) == count0 && work@.len()
                        == wlen0),
                decreases n_fields - i,
            {
                proof {
                    assert(rt.mem().len() <= crate::runtime::HEAP_MAX);
                    lemma_addr_bits(s as int);
                }
                let w = rt.load_field(ws, i);
                proof {
                    assert(block_at(rt.mem(), ws) == m0[s as int]);
                    assert(w == fs[i as int]);
                    assert(word_ok(n0 as int, fs[i as int]));
                    assert(w & 1 == 0 || w & 1 == 1) by (bit_vector);
                }
                if raw::is_block(w) {
                    let k2 = crate::runtime::index_for(w, map.len());
                    let prev = map[k2];
                    if prev.is_none() {
                        let ghost mem_b = rt.mem();
                        let ghost work_b = work@;
                        proof {
                            lemma_count_none_pos(map@, k2 as int);
                        }
                        let d2 = rt.clone_shallow(k2);
                        let ghost map_pre = map@;
                        map[k2] = Some(d2);
                        work.push(k2);
                        proof {
                            lemma_count_none_update(map_pre, k2 as int, d2);
                            assert forall|s2: int| maps_to(map@, s2) implies shallow_state(
                                rt.mem(),
                                map@,
                                s2,
                            ) by {
                                if s2 == k2 as int {
                                    assert(target(map@, s2) == d2 as int);
                                    assert(rt.mem()[d2 as int] == mem_b[k2 as int]);
                                    assert(mem_b[k2 as int] == m0[k2 as int]);
                                } else {
                                    assert(maps_to(map_pre, s2));
                                    assert(shallow_state(mem_b, map_pre, s2));
                                    assert(target(map@, s2) == target(map_pre, s2));
                                    assert(rt.mem()[target(map_pre, s2)] == mem_b[target(
                                        map_pre,
                                        s2,
                                    )]);
                                }
                            }
                            assert forall|s1: int, s2: int|
                                maps_to(map@, s1) && maps_to(map@, s2) && s1 != s2
                                implies target(map@, s1) != target(map@, s2) by {
                                if s1 == k2 as int {
                                    assert(map@[s2] == map_pre[s2]);
                                    assert(maps_to(map_pre, s2));
                                    assert(shallow_state(mem_b, map_pre, s2));
                                } else if s2 == k2 as int {
                                    assert(map@[s1] == map_pre[s1]);
                                    assert(maps_to(map_pre, s1));
                                    assert(shallow_state(mem_b, map_pre, s1));
                                } else {
                                    assert(maps_to(map_pre, s1) && maps_to(map_pre, s2));
                                }
                            }
                            assert forall|q: int| 0 <= q < work@.len() implies (#[trigger] work@[q])
                                < n0 && maps_to(map@, work@[q] as int) by {
                                if q < work@.len() - 1 {
                                    assert(work@[q] == work_b[q]);
                                    assert(maps_to(map_pre, work_b[q] as int));
                                }
                            }
                            assert forall|s2: int|
                                maps_to(map@, s2) && !work@.contains(s2 as usize) && s2 != s as int
                                implies discovered_ok(m0, map@, s2) by {
                                assert(work@[work@.len() - 1] == k2);
                                assert(work@.contains(k2));
                                assert(s2 != k2 as int);
                                if work_b.contains(s2 as usize) {
                                    let q = choose|q: int|
                                        0 <= q < work_b.len() && work_b[q] == s2 as usize;
                                    assert(work@[q] == s2 as usize);
                                    assert(work@.contains(s2 as usize));
                                    assert(false);
                                }
                                assert(map@[s2] == map_pre[s2]);
                                assert(maps_to(map_pre, s2));
                                assert(discovered_ok(m0, map_pre, s2));
                            }
                        }
                    }
                }
                i = i + 1;
            }
            proof {
                assert(discovered_ok(m0, map@, s as int));
            }
        } else {
            proof {
                assert(rt.mem()[s as int] == m0[s as int]);
                assert(!(m0[s as int].body is Fields));
                assert(discovered_ok(m0, map@, s as int));
            }
        }
    }
    let ghost mp = map@;
    let len1 = rt.heap.len();
    let ghost m1 = rt.mem();
    let mut s: usize = 0;
    while s < n0
        invariant
            rt.wf(),
            mp == map@,
            mp.len() == n0,
            n0 == m0.len(),
            mem_wf(m0),
            s <= n0,
            rt.mem().len() == len1 as int,
            n0 <= len1,
            mem_extends(rt.mem(), m0),
            (rt.model() == crate::runtime::RuntimeModel { mem: rt.model().mem, ..model0 }),
            injective(mp),
            maps_to(mp, src0 as int),
            src0 < n0,
            forall|k: int| maps_to(mp, k) ==> n0 <= target(mp, k) < len1,
            forall|k: int| maps_to(mp, k) ==> discovered_ok(m0, mp, k),
            forall|k: int| maps_to(mp, k) && k >= s ==> rt.mem()[target(mp, k)] == m0[k],
            forall|k: int| maps_to(mp, k) && k < s ==> copied(rt.mem(), mp, k),
        decreases n0 - s,
    {
        let entry = map[s];
        match entry {
            None => {},
            Some(d) => {
                proof {
                    assert(maps_to(mp, s as int));
                    assert(n0 <= target(mp, s as int) < len1);
                    assert(rt.mem().len() <= crate::runtime::HEAP_MAX);
                    lemma_addr_bits(s as int);
                    lemma_addr_bits(d as int);
                }
                let ws = crate::runtime::addr_for(s);
                let wd = crate::runtime::addr_for(d);
                if rt.is_scanned_block(ws) {
                    let n_fields = rt.field_count(ws);
                    let ghost fs = block_fields(m0[s as int]);
                    proof {
                        assert(rt.mem()[s as int] == m0[s as int]);
                        assert(crate::runtime::block_wf(n0 as int, m0[s as int]));
                    }
                    let mut i: usize = 0;
                    while i < n_fields
                        invariant
                            rt.wf(),
                            mp == map@,
                            mp.len() == n0,
                            n0 == m0.len(),
                            mem_wf(m0),
                            s < n0,
                            i <= n_fields,
                            rt.mem().len() == len1 as int,
                            n0 <= len1,
                            mem_extends(rt.mem(), m0),
                            (rt.model() == crate::runtime::RuntimeModel {
                                mem: rt.model().mem,
                                ..model0
                            }),
                            injective(mp),
                            maps_to(mp, src0 as int),
                            src0 < n0,
                            maps_to(mp, s as int),
                            d == target(mp, s as int),
                            ws == spec_addr(s as int),
                            wd == spec_addr(d as int),
                            (m0[s as int].body matches BodyModel::Fields(f) && f == fs),
                            n_fields == fs.len(),
                            crate::runtime::block_wf(n0 as int, m0[s as int]),
                            forall|k: int| maps_to(mp, k) ==> n0 <= target(mp, k) < len1,
                            forall|k: int| maps_to(mp, k) ==> discovered_ok(m0, mp, k),
                            forall|k: int|
                                maps_to(mp, k) && k > s ==> rt.mem()[target(mp, k)] == m0[k],
                            forall|k: int| maps_to(mp, k) && k < s ==> copied(rt.mem(), mp, k),
                            rt.mem()[d as int].tag == m0[s as int].tag,
                            (rt.mem()[d as int].body matches BodyModel::Fields(g) && g.len()
                                == fs.len() && (forall|j: int|
                                0 <= j < i ==> word_corresponds(mp, fs[j], #[trigger] g[j])) && (
                            forall|j: int| i <= j < fs.len() ==> #[trigger] g[j] == fs[j])),
                        decreases n_fields - i,
                    {
                        proof {
                            assert(rt.mem().len() <= crate::runtime::HEAP_MAX);
                            lemma_addr_bits(s as int);
                            lemma_addr_bits(d as int);
                        }
                        let w = rt.load_field(ws, i);
                        proof {
                            assert(block_at(rt.mem(), ws) == m0[s as int]);
                            assert(word_ok(n0 as int, fs[i as int]));
                        }
                        let nw: u64;
                        if raw::is_block(w) {
                            proof {
                                assert(w == fs[i as int]);
                                assert(discovered_ok(m0, mp, s as int));
                            }
                            let k2 = crate::runtime::index_for(w, map.len());
                            proof {
                                assert(k2 == spec_addr_index(fs[i as int]));
                                assert(maps_to(mp, k2 as int));
                            }
                            let d2 = match map[k2] {
                                Some(x) => x,
                                None => {
                                    proof {
                                        assert(false);
                                    }
                                    0
                                },
                            };
                            proof {
                                assert(n0 <= target(mp, k2 as int) < len1);
                                lemma_addr_bits(d2 as int);
                            }
                            nw = crate::runtime::addr_for(d2);
                            proof {
                                assert(d2 as int == target(mp, k2 as int));
                                assert(nw == spec_addr(target(mp, k2 as int)));
                                assert(word_corresponds(mp, fs[i as int], nw));
                                assert(word_ok(rt.mem().len() as int, nw));
                            }
                        } else {
                            nw = w;
                            proof {
                                assert(w == fs[i as int]);
                                assert(w & 1 == 0 || w & 1 == 1) by (bit_vector);
                                assert(raw::spec_is_long(fs[i as int]));
                                assert(word_corresponds(mp, fs[i as int], nw));
                            }
                        }
                        let ghost mem_pre = rt.mem();
                        rt.store_field_raw(wd, i, nw);
                        proof {
                            assert(spec_addr_index(wd) == d as int);
                            assert(rt.mem()[d as int].tag == mem_pre[d as int].tag);
                            assert(rt.mem()[d as int].body == BodyModel::Fields(
                                block_fields(mem_pre[d as int]).update(i as int, nw),
                            ));
                            assert forall|k: int| maps_to(mp, k) && k > s implies rt.mem()[target(
                                mp,
                                k,
                            )] == m0[k] by {
                                assert(target(mp, k) != d as int);
                                assert(rt.mem()[target(mp, k)] == mem_pre[target(mp, k)]);
                            }
                            assert forall|k: int| maps_to(mp, k) && k < s implies copied(
                                rt.mem(),
                                mp,
                                k,
                            ) by {
                                assert(copied(mem_pre, mp, k));
                                assert(target(mp, k) != d as int);
                                assert(rt.mem()[target(mp, k)] == mem_pre[target(mp, k)]);
                                assert(rt.mem()[k] == mem_pre[k]);
                            }
                        }
                        i = i + 1;
                    }
                    proof {
                        assert(copied(rt.mem(), mp, s as int));
                    }
                } else {
                    proof {
                        assert(rt.mem()[s as int] == m0[s as int]);
                        assert(rt.mem()[target(mp, s as int)] == m0[s as int]);
                        assert(n0 <= target(mp, s as int) < len1);
                        assert(!(m0[s as int].body is Fields));
                        assert(copied(rt.mem(), mp, s as int));
                    }
                }
            },
        }
        proof {
            assert forall|k: int| maps_to(mp, k) && k < s + 1 implies copied(rt.mem(), mp, k) by {
                if k == s as int {
                    assert(maps_to(mp, s as int));
                }
            }
        }
        s = s + 1;
    }
    let dr = match map[src0] {
        Some(x) => x,
        None => {
            proof {
                assert(false);
            }
            0
        },
    };
    proof {
        lemma_addr_bits(dr as int);
        assert(all_copied(rt.mem(), mp));
        crate::runtime::lemma_addr_roundtrip(v.0);
        assert forall|depth: nat| equiv_at(rt.mem(), v.0, spec_addr(dr as int), depth) by {
            lemma_copied_equiv(rt.mem(), mp, src0 as int, depth);
        }
    }
    Value(crate::runtime::addr_for(dr))
}

impl Value {
    /// Recursively clone this value's block graph into fresh allocations of
    /// the collector's heap, through the rooting context.  Unscanned blocks
    /// are copied as opaque contents; scanned blocks are copied per field.
    /// The clone is structurally equivalent to the source at every depth and
    /// pointer-distinct from every pre-existing block.
    pub fn deep_clone_to_ocaml(self, rt: &mut Runtime) -> (r: Value)
        requires
            old(rt).wf(),
            word_ok(old(rt).mem().len() as int, self.0),
            2 * old(rt).mem().len() <= crate::runtime::HEAP_MAX,
        ensures
            final(rt).wf(),
            mem_extends(final(rt).mem(), old(rt).mem()),
            (final(rt).model() == crate::runtime::RuntimeModel {
                mem: final(rt).model().mem,
                ..old(rt).model()
            }),
            raw::spec_is_long(self.0) ==> r == self && final(rt).model() == old(rt).model(),
            !raw::spec_is_long(self.0) ==> word_points(final(rt).mem().len() as int, r.0)
                && spec_addr_index(r.0) >= old(rt).mem().len() && r.0 != self.0,
            forall|depth: nat| equiv_at(final(rt).mem(), self.0, r.0, depth),
    {
        deep_copy(rt, self)
    }

    /// Recursively clone this value's block graph into storage the collector
    /// never scans, skipping root registration.  In this model the two heap
    /// domains coincide, so the copy and its contract are those of the
    /// collector-heap clone.
    pub fn deep_clone_to_rust(self, rt: &mut Runtime) -> (r: Value)
        requires
            old(rt).wf(),
            word_ok(old(rt).mem().len() as int, self.0),
            2 * old(rt).mem().len() <= crate::runtime::HEAP_MAX,
        ensures
            final(rt).wf(),
            mem_extends(final(rt).mem(), old(rt).mem()),
            (final(rt).model() == crate::runtime::RuntimeModel {
                mem: final(rt).model().mem,
                ..old(rt).model()
            }),
            raw::spec_is_long(self.0) ==> r == self && final(rt).model() == old(rt).model(),
            !raw::spec_is_long(self.0) ==> word_points(final(rt).mem().len() as int, r.0)
                && spec_addr_index(r.0) >= old(rt).mem().len() && r.0 != self.0,
            forall|depth: nat| equiv_at(final(rt).mem(), self.0, r.0, depth),
    {
        deep_copy(rt, self)
    }
}

} // verus!
