//! The modeled heap and the process-wide state of the foreign runtime.
//!
//! A `Runtime` owns everything the foreign runtime would own: the heap of
//! tagged blocks, the chain of root tables the collector walks, the arena of
//! rooted slots those tables point at, the named-value registry and the
//! once-only failure-translator flag.  Every allocating operation takes the
//! `Runtime` by `&mut`, so omitting the rooting context is impossible by
//! construction.
//!
//! Block addresses are modeled as word-aligned machine words: the block with
//! heap index `k` lives at address `(k + 1) * 8`.  Bit 0 of an address is
//! clear, which is what makes the one-bit immediate/pointer discriminator of
//! `raw` sound, and bits 0–2 are clear, which leaves room for the exception
//! marker of the call protocol.

use vstd::prelude::*;

use crate::raw;
use crate::tag;

verus! {

/// Upper bound on the number of heap blocks the address encoding can serve.
pub const HEAP_MAX: u64 = 0x1000_0000_0000_0000;

/// Contents of a heap block: scanned field words, text bytes, or opaque
/// unscanned words.
pub enum BlockData {
    Fields(Vec<u64>),
    Bytes(Vec<u8>),
    Raw(Vec<u64>),
}

/// One heap block: an 8-bit tag and its contents.
pub struct Block {
    pub tag: u8,
    pub data: BlockData,
}

/// Mathematical contents of a block.
pub enum BodyModel {
    Fields(Seq<u64>),
    Bytes(Seq<u8>),
    Raw(Seq<u64>),
}

/// Mathematical view of a block.
pub struct BlockModel {
    pub tag: u8,
    pub body: BodyModel,
}

impl View for Block {
    type V = BlockModel;

    open spec fn view(&self) -> BlockModel {
        BlockModel {
            tag: self.tag,
            body: match self.data {
                BlockData::Fields(f) => BodyModel::Fields(f@),
                BlockData::Bytes(b) => BodyModel::Bytes(b@),
                BlockData::Raw(r) => BodyModel::Raw(r@),
            },
        }
    }
}

/// One table of the root list: at most five indices into the slot arena.
pub struct RootTable {
    pub entries: Vec<usize>,
}

/// A name bound in the named-value registry.
pub struct NamedEntry {
    pub name: Vec<u8>,
    pub val: u64,
}

/// Mathematical view of the whole runtime state.
pub struct RuntimeModel {
    pub mem: Seq<BlockModel>,
    pub tables: Seq<Seq<usize>>,
    pub slots: Seq<u64>,
    pub globals: Seq<u64>,
    pub named: Seq<(Seq<u8>, u64)>,
    pub handler: bool,
}

/// The modeled foreign runtime: heap, root list, slot arena, global roots,
/// registry and failure-translator flag.
pub struct Runtime {
    pub heap: Vec<Block>,
    pub tables: Vec<RootTable>,
    pub slots: Vec<u64>,
    pub globals: Vec<u64>,
    pub named: Vec<NamedEntry>,
    pub handler: bool,
}

/// The address of the block with heap index `k`.
pub open spec fn spec_addr(k: int) -> u64 {
    ((k + 1) * 8) as u64
}

/// The heap index a block address refers to.
pub open spec fn spec_addr_index(w: u64) -> int {
    (w as int) / 8 - 1
}

/// Is the word shaped like a block address (word-aligned, nonzero)?
pub open spec fn is_addr(w: u64) -> bool {
    (w as int) % 8 == 0 && w >= 8
}

/// Is the word a block address within a heap of `n` blocks?
pub open spec fn word_points(n: int, w: u64) -> bool {
    is_addr(w) && spec_addr_index(w) < n
}

/// Is the word meaningful over a heap of `n` blocks: an immediate, or a
/// block address within it?
pub open spec fn word_ok(n: int, w: u64) -> bool {
    raw::spec_is_long(w) || word_points(n, w)
}

/// The scanned or opaque field words of a block (empty for a byte block).
pub open spec fn block_fields(b: BlockModel) -> Seq<u64> {
    match b.body {
        BodyModel::Fields(f) => f,
        BodyModel::Raw(r) => r,
        BodyModel::Bytes(_) => Seq::empty(),
    }
}

/// The bytes of a byte block (empty otherwise).
pub open spec fn block_bytes(b: BlockModel) -> Seq<u8> {
    match b.body {
        BodyModel::Bytes(s) => s,
        BodyModel::Fields(_) => Seq::empty(),
        BodyModel::Raw(_) => Seq::empty(),
    }
}

/// Is the block one the collector scans (per-word fields, low tag)?
pub open spec fn is_scanned(b: BlockModel) -> bool {
    b.body is Fields
}

/// A block is well formed over a heap of `n` blocks when its contents match
/// its tag and every scanned field word is meaningful.
pub open spec fn block_wf(n: int, b: BlockModel) -> bool {
    match b.body {
        BodyModel::Fields(f) => b.tag < tag::NO_SCAN && (forall|i: int|
            0 <= i < f.len() ==> word_ok(n, #[trigger] f[i])),
        BodyModel::Bytes(_) => b.tag == tag::STRING,
        BodyModel::Raw(_) => b.tag >= tag::NO_SCAN && b.tag != tag::STRING,
    }
}

/// A heap is well formed when it fits the address encoding and every block
/// in it is well formed.
pub open spec fn mem_wf(m: Seq<BlockModel>) -> bool {
    &&& m.len() <= HEAP_MAX
    &&& forall|k: int| 0 <= k < m.len() ==> block_wf(m.len() as int, #[trigger] m[k])
}

/// The block a valid address refers to.
pub open spec fn block_at(m: Seq<BlockModel>, w: u64) -> BlockModel {
    m[spec_addr_index(w)]
}

/// The word count a block's header records: its field words, or, for a byte
/// block, one word per eight bytes plus the padding word.
pub open spec fn spec_wosize(b: BlockModel) -> int {
    match b.body {
        BodyModel::Fields(f) => f.len() as int,
        BodyModel::Raw(r) => r.len() as int,
        BodyModel::Bytes(s) => s.len() as int / 8 + 1,
    }
}

/// `m2` extends `m1`: nothing below `m1`'s length changed.
pub open spec fn mem_extends(m2: Seq<BlockModel>, m1: Seq<BlockModel>) -> bool {
    &&& m1.len() <= m2.len()
    &&& forall|k: int| 0 <= k < m1.len() ==> m2[k] == #[trigger] m1[k]
}

/// Address arithmetic: the address of index `k` is word-aligned, decodes
/// back to `k`, reads as a block pointer, and is not an exception result.
pub proof fn lemma_addr_bits(k: int)
    requires
        0 <= k < HEAP_MAX,
    ensures
        is_addr(spec_addr(k)),
        spec_addr_index(spec_addr(k)) == k,
        raw::spec_is_block(spec_addr(k)),
        !raw::spec_is_long(spec_addr(k)),
        !raw::spec_is_exception_result(spec_addr(k)),
{
    let w = spec_addr(k);
    assert(0 <= (k + 1) * 8 <= 0x8000_0000_0000_0000) by (nonlinear_arith)
        requires 0 <= k < 0x1000_0000_0000_0000;
    assert(w == (k + 1) * 8);
    assert(((k + 1) * 8) % 8 == 0 && ((k + 1) * 8) / 8 == k + 1) by (nonlinear_arith);
    assert(w as int % 8 == 0 ==> (w & 1 == 0 && w & 3 != 2)) by (bit_vector);
}

/// Marking a word whose three low bits are clear as an exception result is
/// reversible and classified correctly.
pub proof fn lemma_exception_mark(w: u64)
    requires
        (w as int) % 8 == 0,
    ensures
        raw::spec_is_exception_result(raw::spec_make_exception_result(w)),
        raw::spec_extract_exception(raw::spec_make_exception_result(w)) == w,
        raw::spec_is_block(raw::spec_make_exception_result(w)),
{
    assert(w as int % 8 == 0 ==> ((w | 2) & 3 == 2 && (w | 2) & !3 == w && (w | 2) & 1 == 0))
        by (bit_vector);
}

/// A well-shaped address re-encodes from its index.
pub proof fn lemma_addr_roundtrip(w: u64)
    requires
        is_addr(w),
    ensures
        spec_addr(spec_addr_index(w)) == w,
{
    assert(((w as int) / 8) * 8 == w as int) by (nonlinear_arith)
        requires (w as int) % 8 == 0;
}

/// An address valid for a heap stays valid and refers to the same block in
/// any extension of it.
pub proof fn lemma_extends_block(m1: Seq<BlockModel>, m2: Seq<BlockModel>, w: u64)
    requires
        mem_extends(m2, m1),
        word_points(m1.len() as int, w),
    ensures
        word_points(m2.len() as int, w),
        block_at(m2, w) == block_at(m1, w),
{
}

/// The address of the block with heap index `k`.
pub fn addr_for(k: usize) -> (w: u64)
    requires
        (k as u64) < HEAP_MAX,
    ensures
        w == spec_addr(k as int),
{
    ((k as u64) + 1) * 8
}

/// The heap index a valid block address refers to.
pub fn index_for(w: u64, n: usize) -> (k: usize)
    requires
        is_addr(w),
        spec_addr_index(w) < n,
    ensures
        k == spec_addr_index(w),
{
    ((w / 8) - 1) as usize
}

/// Copy a vector of words.
pub fn copy_words(v: &Vec<u64>) -> (r: Vec<u64>)
    ensures
        r@ == v@,
{
    let mut r: Vec<u64> = Vec::new();
    let mut i: usize = 0;
    while i < v.len()
        invariant
            i <= v.len(),
            r@ == v@.subrange(0, i as int),
        decreases v.len() - i,
    {
        r.push(v[i]);
        i = i + 1;
        proof {
            assert(r@ =~= v@.subrange(0, i as int));
        }
    }
    proof {
        assert(r@ =~= v@);
    }
    r
}

/// Copy a slice of bytes into owned storage.
pub fn copy_bytes(v: &[u8]) -> (r: Vec<u8>)
    ensures
        r@ == v@,
{
    let mut r: Vec<u8> = Vec::new();
    let mut i: usize = 0;
    while i < v.len()
        invariant
            i <= v.len(),
            r@ == v@.subrange(0, i as int),
        decreases v.len() - i,
    {
        r.push(v[i]);
        i = i + 1;
        proof {
            assert(r@ =~= v@.subrange(0, i as int));
        }
    }
    proof {
        assert(r@ =~= v@);
    }
    r
}

/// A vector of `n` copies of the word `w`.
pub fn filled_words(n: usize, w: u64) -> (r: Vec<u64>)
    ensures
        r@.len() == n,
        forall|i: int| 0 <= i < n ==> r@[i] == w,
{
    let mut r: Vec<u64> = Vec::new();
    let mut i: usize = 0;
    while i < n
        invariant
            i <= n,
            r@.len() == i,
            forall|j: int| 0 <= j < i ==> r@[j] == w,
        decreases n - i,
    {
        r.push(w);
        i = i + 1;
    }
    r
}

impl Runtime {
    /// Mathematical view of the runtime state.
    pub open spec fn model(self) -> RuntimeModel {
        RuntimeModel {
            mem: self.heap@.map_values(|b: Block| b@),
            tables: self.tables@.map_values(|t: RootTable| t.entries@),
            slots: self.slots@,
            globals: self.globals@,
            named: self.named@.map_values(|e: NamedEntry| (e.name@, e.val)),
            handler: self.handler,
        }
    }

    /// The heap part of the view.
    pub open spec fn mem(self) -> Seq<BlockModel> {
        self.model().mem
    }

    /// Is the word meaningful over this runtime's heap?
    pub open spec fn wf_word(self, w: u64) -> bool {
        word_ok(self.mem().len() as int, w)
    }

    /// Well-formedness of the whole state: the heap is well formed and every
    /// registered root table, slot and named value is meaningful.
    pub open spec fn wf(self) -> bool {
        let md = self.model();
        &&& mem_wf(md.mem)
        &&& forall|i: int| 0 <= i < md.slots.len() ==> word_ok(
            md.mem.len() as int,
            #[trigger] md.slots[i],
        )
        &&& forall|i: int| 0 <= i < md.globals.len() ==> word_ok(
            md.mem.len() as int,
            #[trigger] md.globals[i],
        )
        &&& forall|i: int| 0 <= i < md.named.len() ==> word_ok(
            md.mem.len() as int,
            (#[trigger] md.named[i]).1,
        )
        &&& forall|t: int| 0 <= t < md.tables.len() ==> (#[trigger] md.tables[t]).len() <= 5
        &&& forall|t: int, j: int|
            0 <= t < md.tables.len() && 0 <= j < md.tables[t].len() ==> #[trigger] md.tables[t][j]
                < md.slots.len()
    }

    /// A fresh runtime: empty heap, empty root list, no slots, no names, the
    /// failure translator not yet installed.
    pub fn new() -> (rt: Runtime)
        ensures
            rt.wf(),
            (rt.model() == RuntimeModel {
                mem: Seq::<BlockModel>::empty(),
                tables: Seq::<Seq<usize>>::empty(),
                slots: Seq::<u64>::empty(),
                globals: Seq::<u64>::empty(),
                named: Seq::<(Seq<u8>, u64)>::empty(),
                handler: false,
            }),
    {
        let rt = Runtime {
            heap: Vec::new(),
            tables: Vec::new(),
            slots: Vec::new(),
            globals: Vec::new(),
            named: Vec::new(),
            handler: false,
        };
        proof {
            assert(rt.model().mem =~= Seq::<BlockModel>::empty());
            assert(rt.model().tables =~= Seq::<Seq<usize>>::empty());
            assert(rt.model().named =~= Seq::<(Seq<u8>, u64)>::empty());
        }
        rt
    }

    /// Append a well-formed block to the heap and return its address.
    pub fn push_block(&mut self, b: Block) -> (w: u64)
        requires
            old(self).wf(),
            block_wf(old(self).mem().len() as int, b@),
            old(self).mem().len() < HEAP_MAX,
        ensures
            final(self).wf(),
            (final(self).model() == RuntimeModel {
                mem: old(self).mem().push(b@),
                ..old(self).model()
            }),
            mem_extends(final(self).mem(), old(self).mem()),
            w == spec_addr(old(self).mem().len() as int),
            word_points(final(self).mem().len() as int, w),
            spec_addr_index(w) == old(self).mem().len(),
            block_at(final(self).mem(), w) == b@,
            raw::spec_is_block(w),
            !raw::spec_is_long(w),
    {
        let k = self.heap.len();
        proof {
            lemma_addr_bits(k as int);
        }
        self.heap.push(b);
        proof {
            assert(self.mem() =~= old(self).mem().push(b@));
            assert(self.model() == RuntimeModel {
                mem: old(self).mem().push(b@),
                ..old(self).model()
            });
            let m2 = self.mem();
            let n2 = m2.len() as int;
            assert forall|j: int| 0 <= j < n2 implies block_wf(n2, #[trigger] m2[j]) by {
                if j < old(self).mem().len() {
                    assert(block_wf(old(self).mem().len() as int, m2[j]));
                }
            }
        }
        addr_for(k)
    }

    /// Read field `i` of the scanned or opaque block at address `w`.
    pub fn load_field(&self, w: u64, i: usize) -> (r: u64)
        requires
            self.wf(),
            word_points(self.mem().len() as int, w),
            i < block_fields(block_at(self.mem(), w)).len(),
            (!(block_at(self.mem(), w).body is Bytes)),
        ensures
            r == block_fields(block_at(self.mem(), w))[i as int],
    {
        let k = index_for(w, self.heap.len());
        let b = &self.heap[k];
        match &b.data {
            BlockData::Fields(f) => f[i],
            BlockData::Raw(f) => f[i],
            BlockData::Bytes(_) => {
                proof {
                    assert(false);
                }
                0
            },
        }
    }

    /// The number of field words of the block at address `w`.
    pub fn field_count(&self, w: u64) -> (n: usize)
        requires
            self.wf(),
            word_points(self.mem().len() as int, w),
            (!(block_at(self.mem(), w).body is Bytes)),
        ensures
            n == block_fields(block_at(self.mem(), w)).len(),
    {
        let k = index_for(w, self.heap.len());
        let b = &self.heap[k];
        match &b.data {
            BlockData::Fields(f) => f.len(),
            BlockData::Raw(f) => f.len(),
            BlockData::Bytes(_) => {
                proof {
                    assert(false);
                }
                0
            },
        }
    }

    /// The tag byte of the block at address `w`.
    pub fn load_tag(&self, w: u64) -> (t: u8)
        requires
            self.wf(),
            word_points(self.mem().len() as int, w),
        ensures
            t == block_at(self.mem(), w).tag,
    {
        let k = index_for(w, self.heap.len());
        self.heap[k].tag
    }

    /// The byte length of the byte block at address `w`.
    pub fn byte_count(&self, w: u64) -> (n: usize)
        requires
            self.wf(),
            word_points(self.mem().len() as int, w),
            (block_at(self.mem(), w).body is Bytes),
        ensures
            n == block_bytes(block_at(self.mem(), w)).len(),
    {
        let k = index_for(w, self.heap.len());
        let b = &self.heap[k];
        match &b.data {
            BlockData::Bytes(s) => s.len(),
            BlockData::Fields(_) => {
                proof {
                    assert(false);
                }
                0
            },
            BlockData::Raw(_) => {
                proof {
                    assert(false);
                }
                0
            },
        }
    }

    /// Borrow the contents of the byte block at address `w` without copying.
    /// The borrow keeps the runtime immutable, so no allocation can relocate
    /// the block while the view is alive.
    pub fn bytes_view(&self, w: u64) -> (r: &[u8])
        requires
            self.wf(),
            word_points(self.mem().len() as int, w),
            (block_at(self.mem(), w).body is Bytes),
        ensures
            r@ == block_bytes(block_at(self.mem(), w)),
    {
        let k = index_for(w, self.heap.len());
        let b = &self.heap[k];
        match &b.data {
            BlockData::Bytes(s) => s.as_slice(),
            BlockData::Fields(_) => {
                proof {
                    assert(false);
                }
                &[]
            },
            BlockData::Raw(_) => {
                proof {
                    assert(false);
                }
                &[]
            },
        }
    }

    /// Copy the contents of the byte block at address `w` into owned storage.
    pub fn load_bytes(&self, w: u64) -> (r: Vec<u8>)
        requires
            self.wf(),
            word_points(self.mem().len() as int, w),
            (block_at(self.mem(), w).body is Bytes),
        ensures
            r@ == block_bytes(block_at(self.mem(), w)),
    {
        let k = index_for(w, self.heap.len());
        let b = &self.heap[k];
        match &b.data {
            BlockData::Bytes(s) => copy_bytes(s.as_slice()),
            BlockData::Fields(_) => {
                proof {
                    assert(false);
                }
                Vec::new()
            },
            BlockData::Raw(_) => {
                proof {
                    assert(false);
                }
                Vec::new()
            },
        }
    }

    /// The word count a block's header records: the field words of a scanned
    /// or opaque block; for a byte block, the padded byte count.
    pub fn wosize_val(&self, w: u64) -> (n: usize)
        requires
            self.wf(),
            word_points(self.mem().len() as int, w),
        ensures
            n == spec_wosize(block_at(self.mem(), w)),
    {
        let k = index_for(w, self.heap.len());
        let b = &self.heap[k];
        match &b.data {
            BlockData::Fields(f) => f.len(),
            BlockData::Raw(f) => f.len(),
            BlockData::Bytes(s) => s.len() / 8 + 1,
        }
    }

    /// Does the block at address `w` carry scanned fields?
    pub fn is_scanned_block(&self, w: u64) -> (b: bool)
        requires
            self.wf(),
            word_points(self.mem().len() as int, w),
        ensures
            b == (block_at(self.mem(), w).body is Fields),
    {
        let k = index_for(w, self.heap.len());
        let bl = &self.heap[k];
        match &bl.data {
            BlockData::Fields(_) => true,
            BlockData::Bytes(_) => false,
            BlockData::Raw(_) => false,
        }
    }

    /// Append an exact copy of the block with heap index `k` and return the
    /// copy's index.
    pub fn clone_shallow(&mut self, k: usize) -> (d: usize)
        requires
            old(self).wf(),
            k < old(self).mem().len(),
            old(self).mem().len() < HEAP_MAX,
        ensures
            final(self).wf(),
            (final(self).model() == RuntimeModel {
                mem: old(self).mem().push(old(self).mem()[k as int]),
                ..old(self).model()
            }),
            mem_extends(final(self).mem(), old(self).mem()),
            d == old(self).mem().len(),
    {
        let d = self.heap.len();
        let bl = &self.heap[k];
        let t = bl.tag;
        let nb = match &bl.data {
            BlockData::Fields(f) => Block { tag: t, data: BlockData::Fields(copy_words(f)) },
            BlockData::Bytes(s) => Block {
                tag: t,
                data: BlockData::Bytes(copy_bytes(s.as_slice())),
            },
            BlockData::Raw(f) => Block { tag: t, data: BlockData::Raw(copy_words(f)) },
        };
        proof {
            assert(nb@ == old(self).mem()[k as int]);
            assert(block_wf(old(self).mem().len() as int, old(self).mem()[k as int]));
        }
        self.push_block(nb);
        d
    }

    /// Store the meaningful word `x` into field `i` of the scanned block at
    /// address `w`.  This is the write-barrier-aware update: the contract
    /// keeps the heap well formed, which a raw word store would not.
    pub fn store_field_raw(&mut self, w: u64, i: usize, x: u64)
        requires
            old(self).wf(),
            word_points(old(self).mem().len() as int, w),
            (block_at(old(self).mem(), w).body is Fields),
            i < block_fields(block_at(old(self).mem(), w)).len(),
            word_ok(old(self).mem().len() as int, x),
        ensures
            final(self).wf(),
            (final(self).model() == RuntimeModel {
                mem: old(self).mem().update(
                    spec_addr_index(w),
                    BlockModel {
                        tag: block_at(old(self).mem(), w).tag,
                        body: BodyModel::Fields(
                            block_fields(block_at(old(self).mem(), w)).update(i as int, x),
                        ),
                    },
                ),
                ..old(self).model()
            }),
    {
        let k = index_for(w, self.heap.len());
        let b = &mut self.heap[k];
        match &mut b.data {
            BlockData::Fields(f) => {
                f[i] = x;
            },
            BlockData::Bytes(_) => {
                proof {
                    assert(false);
                }
            },
            BlockData::Raw(_) => {
                proof {
                    assert(false);
                }
            },
        }
        proof {
            let kk = spec_addr_index(w);
            let nb = BlockModel {
                tag: block_at(old(self).mem(), w).tag,
                body: BodyModel::Fields(
                    block_fields(block_at(old(self).mem(), w)).update(i as int, x),
                ),
            };
            assert(self.mem() =~= old(self).mem().update(kk, nb));
            assert(self.model() == RuntimeModel {
                mem: old(self).mem().update(kk, nb),
                ..old(self).model()
            });
            let m2 = self.mem();
            let n2 = m2.len() as int;
            assert forall|j: int| 0 <= j < n2 implies block_wf(n2, #[trigger] m2[j]) by {
                if j != kk {
                    assert(m2[j] == old(self).mem()[j]);
                    assert(block_wf(n2, old(self).mem()[j]));
                } else {
                    let of = block_fields(block_at(old(self).mem(), w));
                    assert(forall|q: int| 0 <= q < of.len() ==> word_ok(n2, #[trigger] of[q]));
                    assert(forall|q: int|
                        0 <= q < of.update(i as int, x).len() ==> word_ok(
                            n2,
                            #[trigger] of.update(i as int, x)[q],
                        ));
                }
            }
        }
    }
}

} // verus!
