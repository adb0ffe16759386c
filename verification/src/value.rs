//! The tagged value wrapper and its constructors and accessors.
//!
//! Immediates (`of_int`, `bool`, `unit`, `none`) need no allocation and no
//! rooting context.  Everything else allocates a block and therefore takes
//! the runtime by `&mut`: omitting the rooting context is impossible by
//! construction.

use vstd::prelude::*;

use crate::raw;
use crate::runtime::{
    block_at, block_bytes, block_fields, mem_extends, spec_addr, spec_addr_index, word_ok,
    word_points, Block, BlockData, BlockModel, BodyModel, Runtime, RuntimeModel, HEAP_MAX,
};
use crate::tag;
use crate::tag::Tag;

verus! {

/// Identifying first word of a boxed 64-bit integer block.
pub const CUSTOM_OPS_INT64: u64 = 1;

/// Identifying first word of a boxed 32-bit integer block.
pub const CUSTOM_OPS_INT32: u64 = 2;

/// Identifying first word of a boxed native-width integer block.
pub const CUSTOM_OPS_NATIVEINT: u64 = 3;

/// The first match for `name` in the named-value registry.
pub open spec fn lookup_named(named: Seq<(Seq<u8>, u64)>, name: Seq<u8>) -> Option<u64>
    decreases named.len(),
{
    if named.len() == 0 {
        None
    } else if named[0].0 == name {
        Some(named[0].1)
    } else {
        lookup_named(named.drop_first(), name)
    }
}

/// Compare two byte slices for equality.
pub fn bytes_eq(a: &[u8], b: &[u8]) -> (r: bool)
    ensures
        r == (a@ == b@),
{
    if a.len() != b.len() {
        proof {
            assert(a@.len() != b@.len());
        }
        return false;
    }
    let mut i: usize = 0;
    while i < a.len()
        invariant
            i <= a.len(),
            a.len() == b.len(),
            forall|j: int| 0 <= j < i ==> a@[j] == b@[j],
        decreases a.len() - i,
    {
        if a[i] != b[i] {
            return false;
        }
        i = i + 1;
    }
    proof {
        assert(a@ =~= b@);
    }
    true
}

/// One machine word: either an immediate or the address of a heap block.
#[derive(Clone, Copy, Debug, PartialEq, Eq, Structural)]
pub struct Value(pub u64);

/// Conversion from a native type into a value.  Encoding may allocate, so it
/// takes the rooting context; what the resulting word encodes is stated by
/// the implementing type's `encodes` relation.
pub trait ToValue: Sized {
    /// When the conversion may run over the given runtime.
    spec fn can_encode(self, rt: Runtime) -> bool;

    /// In runtime `rt`, value `v` encodes `self`.
    spec fn encodes(self, rt: Runtime, v: Value) -> bool;

    /// Convert to a value, allocating through the rooting context.
    fn to_value(self, rt: &mut Runtime) -> (v: Value)
        requires
            old(rt).wf(),
            self.can_encode(*old(rt)),
        ensures
            final(rt).wf(),
            crate::runtime::mem_extends(final(rt).mem(), old(rt).mem()),
            (final(rt).model() == RuntimeModel {
                mem: final(rt).model().mem,
                ..old(rt).model()
            }),
            word_ok(final(rt).mem().len() as int, v.0),
            self.encodes(*final(rt), v),
    ;
}

/// Conversion from a value back to a native type.  Decoding never allocates;
/// what is returned is pinned by the implementing type's `decode_spec`.
pub trait FromValue: Sized {
    /// When the value can be decoded as this type.
    spec fn can_decode(rt: Runtime, v: Value) -> bool;

    /// What decoding returns.
    spec fn decode_spec(rt: Runtime, v: Value) -> Self;

    /// Convert from a value.
    fn from_value(rt: &Runtime, v: Value) -> (r: Self)
        requires
            rt.wf(),
            Self::can_decode(*rt, v),
        ensures
            r == Self::decode_spec(*rt, v),
    ;
}

impl ToValue for Value {
    open spec fn can_encode(self, rt: Runtime) -> bool {
        word_ok(rt.mem().len() as int, self.0)
    }

    open spec fn encodes(self, rt: Runtime, v: Value) -> bool {
        v == self
    }

    fn to_value(self, rt: &mut Runtime) -> (v: Value) {
        Value(self.0)
    }
}

impl FromValue for Value {
    open spec fn can_decode(rt: Runtime, v: Value) -> bool {
        true
    }

    open spec fn decode_spec(rt: Runtime, v: Value) -> Value {
        v
    }

    fn from_value(rt: &Runtime, v: Value) -> (r: Value) {
        v
    }
}

impl Value {
    /// Wrap an existing raw word.
    pub fn new(v: u64) -> (r: Value)
        ensures
            r.0 == v,
    {
        Value(v)
    }

    /// The immediate encoding the integer `i`.
    pub fn of_int(i: i64) -> (r: Value)
        ensures
            r.0 == raw::spec_val_int(i),
    {
        Value(raw::val_int(i))
    }

    /// The immediate encoding the integer `i`, given unsigned.
    pub fn uint(i: u64) -> (r: Value)
        ensures
            r.0 == raw::spec_val_int(i as i64),
    {
        Value(raw::val_int(i as i64))
    }

    /// The immediate encoding a boolean: 1 for true, 0 for false.
    pub fn bool(b: bool) -> (r: Value)
        ensures
            r.0 == raw::spec_val_int(if b { 1 } else { 0 }),
            b ==> r.0 == raw::TRUE,
            !b ==> r.0 == raw::FALSE,
    {
        let r = Value::of_int(if b { 1 } else { 0 });
        proof {
            assert(raw::spec_val_int(1) == 3) by (bit_vector);
            assert(raw::spec_val_int(0) == 1) by (bit_vector);
        }
        r
    }

    /// The fixed sentinel for an absent optional value: the immediate for 0.
    pub fn none() -> (r: Value)
        ensures
            r.0 == raw::spec_val_int(0),
            r.0 == raw::UNIT,
    {
        proof {
            assert(raw::spec_val_int(0) == 1) by (bit_vector);
        }
        Value(raw::UNIT)
    }

    /// The unit value: the immediate for 0.
    pub fn unit() -> (r: Value)
        ensures
            r.0 == raw::spec_val_int(0),
            r.0 == raw::UNIT,
    {
        proof {
            assert(raw::spec_val_int(0) == 1) by (bit_vector);
        }
        Value(raw::UNIT)
    }

    /// The integer carried by an immediate.
    pub fn int_val(self) -> (i: i64)
        ensures
            i == raw::spec_int_val(self.0),
    {
        raw::int_val(self.0)
    }

    /// Is this word a block pointer?
    pub fn is_block(self) -> (b: bool)
        ensures
            b == raw::spec_is_block(self.0),
    {
        raw::is_block(self.0)
    }

    /// Is this word an immediate?
    pub fn is_long(self) -> (b: bool)
        ensures
            b == raw::spec_is_long(self.0),
    {
        raw::is_long(self.0)
    }

    /// Does this word mark a raised exception in a raw callback result?
    pub fn is_exception_result(self) -> (b: bool)
        ensures
            b == raw::spec_is_exception_result(self.0),
    {
        raw::is_exception_result(self.0)
    }

    /// The raised value wrapped in an exception result, if this is one.
    pub fn exception(self) -> (r: Option<Value>)
        ensures
            raw::spec_is_exception_result(self.0) ==> r == Some(
                Value(raw::spec_extract_exception(self.0)),
            ),
            !raw::spec_is_exception_result(self.0) ==> r is None,
    {
        if !self.is_exception_result() {
            return None;
        }
        Some(Value(raw::extract_exception(self.0)))
    }

    /// Allocate a fresh scanned block with `n` unit-initialized fields and
    /// the given tag.
    pub fn alloc_block(rt: &mut Runtime, n: usize, t: Tag) -> (r: Value)
        requires
            old(rt).wf(),
            old(rt).mem().len() < HEAP_MAX,
            t.0 < tag::NO_SCAN,
        ensures
            final(rt).wf(),
            (final(rt).model() == RuntimeModel {
                mem: old(rt).mem().push(
                    BlockModel {
                        tag: t.0,
                        body: BodyModel::Fields(Seq::new(n as nat, |i: int| raw::UNIT)),
                    },
                ),
                ..old(rt).model()
            }),
            mem_extends(final(rt).mem(), old(rt).mem()),
            r.0 == spec_addr(old(rt).mem().len() as int),
            spec_addr_index(r.0) == old(rt).mem().len(),
            word_points(final(rt).mem().len() as int, r.0),
            raw::spec_is_block(r.0),
            !raw::spec_is_long(r.0),
            block_at(final(rt).mem(), r.0).tag == t.0,
            (block_at(final(rt).mem(), r.0).body == BodyModel::Fields(
                Seq::new(n as nat, |i: int| raw::UNIT),
            )),
    {
        let f = crate::runtime::filled_words(n, raw::UNIT);
        proof {
            assert(1u64 & 1 == 1) by (bit_vector);
            assert(f@ =~= Seq::new(n as nat, |i: int| raw::UNIT));
        }
        let b = Block { tag: t.0, data: BlockData::Fields(f) };
        let w = rt.push_block(b);
        Value(w)
    }

    /// Allocate a fresh tuple block: `n` fields, tag 0.
    pub fn alloc_tuple(rt: &mut Runtime, n: usize) -> (r: Value)
        requires
            old(rt).wf(),
            old(rt).mem().len() < HEAP_MAX,
        ensures
            final(rt).wf(),
            (final(rt).model() == RuntimeModel {
                mem: old(rt).mem().push(
                    BlockModel {
                        tag: 0,
                        body: BodyModel::Fields(Seq::new(n as nat, |i: int| raw::UNIT)),
                    },
                ),
                ..old(rt).model()
            }),
            mem_extends(final(rt).mem(), old(rt).mem()),
            r.0 == spec_addr(old(rt).mem().len() as int),
            word_points(final(rt).mem().len() as int, r.0),
            raw::spec_is_block(r.0),
            block_at(final(rt).mem(), r.0).tag == 0,
    {
        Value::alloc_block(rt, n, Tag(0))
    }

    /// Allocate a fresh small scanned block; in this model small and large
    /// allocation coincide.
    pub fn alloc_small(rt: &mut Runtime, n: usize, t: Tag) -> (r: Value)
        requires
            old(rt).wf(),
            old(rt).mem().len() < HEAP_MAX,
            t.0 < tag::NO_SCAN,
        ensures
            final(rt).wf(),
            (final(rt).model() == RuntimeModel {
                mem: old(rt).mem().push(
                    BlockModel {
                        tag: t.0,
                        body: BodyModel::Fields(Seq::new(n as nat, |i: int| raw::UNIT)),
                    },
                ),
                ..old(rt).model()
            }),
            mem_extends(final(rt).mem(), old(rt).mem()),
            r.0 == spec_addr(old(rt).mem().len() as int),
            word_points(final(rt).mem().len() as int, r.0),
    {
        Value::alloc_block(rt, n, t)
    }

    /// Allocate a text/byte block holding a copy of `s`.
    pub fn string(rt: &mut Runtime, s: &[u8]) -> (r: Value)
        requires
            old(rt).wf(),
            old(rt).mem().len() < HEAP_MAX,
        ensures
            final(rt).wf(),
            (final(rt).model() == RuntimeModel {
                mem: old(rt).mem().push(
                    BlockModel { tag: tag::STRING, body: BodyModel::Bytes(s@) },
                ),
                ..old(rt).model()
            }),
            mem_extends(final(rt).mem(), old(rt).mem()),
            r.0 == spec_addr(old(rt).mem().len() as int),
            word_points(final(rt).mem().len() as int, r.0),
            raw::spec_is_block(r.0),
            block_at(final(rt).mem(), r.0).tag == tag::STRING,
            block_bytes(block_at(final(rt).mem(), r.0)) == s@,
    {
        let bytes = crate::runtime::copy_bytes(s);
        let b = Block { tag: tag::STRING, data: BlockData::Bytes(bytes) };
        let w = rt.push_block(b);
        Value(w)
    }

    /// Wrap a value in a fresh one-field block tagged 0: the present case of
    /// an optional value.
    pub fn some(rt: &mut Runtime, v: Value) -> (r: Value)
        requires
            old(rt).wf(),
            old(rt).mem().len() < HEAP_MAX,
            word_ok(old(rt).mem().len() as int, v.0),
        ensures
            final(rt).wf(),
            (final(rt).model() == RuntimeModel {
                mem: old(rt).mem().push(
                    BlockModel { tag: 0, body: BodyModel::Fields(seq![v.0]) },
                ),
                ..old(rt).model()
            }),
            mem_extends(final(rt).mem(), old(rt).mem()),
            r.0 == spec_addr(old(rt).mem().len() as int),
            word_points(final(rt).mem().len() as int, r.0),
            raw::spec_is_block(r.0),
            block_at(final(rt).mem(), r.0).tag == 0,
            block_fields(block_at(final(rt).mem(), r.0)) == seq![v.0],
    {
        let f: Vec<u64> = vec![v.0];
        proof {
            assert(f@ =~= seq![v.0]);
        }
        let b = Block { tag: 0, data: BlockData::Fields(f) };
        let w = rt.push_block(b);
        Value(w)
    }

    /// Allocate a variant block: tag `t`, one field when a payload is given,
    /// none otherwise.
    pub fn variant(rt: &mut Runtime, t: u8, value: Option<Value>) -> (r: Value)
        requires
            old(rt).wf(),
            old(rt).mem().len() < HEAP_MAX,
            t < tag::NO_SCAN,
            (value matches Some(v) ==> word_ok(old(rt).mem().len() as int, v.0)),
        ensures
            final(rt).wf(),
            (final(rt).model() == RuntimeModel {
                mem: old(rt).mem().push(
                    BlockModel {
                        tag: t,
                        body: BodyModel::Fields(
                            match value {
                                Some(v) => seq![v.0],
                                None => Seq::empty(),
                            },
                        ),
                    },
                ),
                ..old(rt).model()
            }),
            mem_extends(final(rt).mem(), old(rt).mem()),
            r.0 == spec_addr(old(rt).mem().len() as int),
            word_points(final(rt).mem().len() as int, r.0),
            block_at(final(rt).mem(), r.0).tag == t,
    {
        match value {
            Some(v) => {
                let f: Vec<u64> = vec![v.0];
                proof {
                    assert(f@ =~= seq![v.0]);
                }
                let b = Block { tag: t, data: BlockData::Fields(f) };
                Value(rt.push_block(b))
            },
            None => {
                let f: Vec<u64> = Vec::new();
                proof {
                    assert(f@ =~= Seq::<u64>::empty());
                }
                let b = Block { tag: t, data: BlockData::Fields(f) };
                Value(rt.push_block(b))
            },
        }
    }

    /// The `Ok` constructor of the foreign result type: variant 0 wrapping
    /// the value.
    pub fn result_ok(rt: &mut Runtime, value: Value) -> (r: Value)
        requires
            old(rt).wf(),
            old(rt).mem().len() < HEAP_MAX,
            word_ok(old(rt).mem().len() as int, value.0),
        ensures
            final(rt).wf(),
            (final(rt).model() == RuntimeModel {
                mem: old(rt).mem().push(
                    BlockModel { tag: 0, body: BodyModel::Fields(seq![value.0]) },
                ),
                ..old(rt).model()
            }),
            mem_extends(final(rt).mem(), old(rt).mem()),
            r.0 == spec_addr(old(rt).mem().len() as int),
            word_points(final(rt).mem().len() as int, r.0),
    {
        Value::variant(rt, 0, Some(value))
    }

    /// The `Error` constructor of the foreign result type: variant 1
    /// wrapping the value.
    pub fn result_error(rt: &mut Runtime, value: Value) -> (r: Value)
        requires
            old(rt).wf(),
            old(rt).mem().len() < HEAP_MAX,
            word_ok(old(rt).mem().len() as int, value.0),
        ensures
            final(rt).wf(),
            (final(rt).model() == RuntimeModel {
                mem: old(rt).mem().push(
                    BlockModel { tag: 1, body: BodyModel::Fields(seq![value.0]) },
                ),
                ..old(rt).model()
            }),
            mem_extends(final(rt).mem(), old(rt).mem()),
            r.0 == spec_addr(old(rt).mem().len() as int),
            word_points(final(rt).mem().len() as int, r.0),
    {
        Value::variant(rt, 1, Some(value))
    }

    /// Box a 64-bit integer: a custom block whose payload word holds the
    /// integer's bits.
    pub fn int64(rt: &mut Runtime, i: i64) -> (r: Value)
        requires
            old(rt).wf(),
            old(rt).mem().len() < HEAP_MAX,
        ensures
            final(rt).wf(),
            (final(rt).model() == RuntimeModel {
                mem: old(rt).mem().push(
                    BlockModel {
                        tag: tag::CUSTOM,
                        body: BodyModel::Raw(seq![CUSTOM_OPS_INT64, i as u64]),
                    },
                ),
                ..old(rt).model()
            }),
            mem_extends(final(rt).mem(), old(rt).mem()),
            r.0 == spec_addr(old(rt).mem().len() as int),
            word_points(final(rt).mem().len() as int, r.0),
    {
        let f: Vec<u64> = vec![CUSTOM_OPS_INT64, i as u64];
        proof {
            assert(f@ =~= seq![CUSTOM_OPS_INT64, i as u64]);
        }
        let b = Block { tag: tag::CUSTOM, data: BlockData::Raw(f) };
        Value(rt.push_block(b))
    }

    /// Box a 32-bit integer.
    pub fn int32(rt: &mut Runtime, i: i32) -> (r: Value)
        requires
            old(rt).wf(),
            old(rt).mem().len() < HEAP_MAX,
        ensures
            final(rt).wf(),
            (final(rt).model() == RuntimeModel {
                mem: old(rt).mem().push(
                    BlockModel {
                        tag: tag::CUSTOM,
                        body: BodyModel::Raw(seq![CUSTOM_OPS_INT32, (i as u32) as u64]),
                    },
                ),
                ..old(rt).model()
            }),
            mem_extends(final(rt).mem(), old(rt).mem()),
            r.0 == spec_addr(old(rt).mem().len() as int),
            word_points(final(rt).mem().len() as int, r.0),
    {
        let f: Vec<u64> = vec![CUSTOM_OPS_INT32, (i as u32) as u64];
        proof {
            assert(f@ =~= seq![CUSTOM_OPS_INT32, (i as u32) as u64]);
        }
        let b = Block { tag: tag::CUSTOM, data: BlockData::Raw(f) };
        Value(rt.push_block(b))
    }

    /// Box a native-width integer.
    pub fn nativeint(rt: &mut Runtime, i: i64) -> (r: Value)
        requires
            old(rt).wf(),
            old(rt).mem().len() < HEAP_MAX,
        ensures
            final(rt).wf(),
            (final(rt).model() == RuntimeModel {
                mem: old(rt).mem().push(
                    BlockModel {
                        tag: tag::CUSTOM,
                        body: BodyModel::Raw(seq![CUSTOM_OPS_NATIVEINT, i as u64]),
                    },
                ),
                ..old(rt).model()
            }),
            mem_extends(final(rt).mem(), old(rt).mem()),
            r.0 == spec_addr(old(rt).mem().len() as int),
            word_points(final(rt).mem().len() as int, r.0),
    {
        let f: Vec<u64> = vec![CUSTOM_OPS_NATIVEINT, i as u64];
        proof {
            assert(f@ =~= seq![CUSTOM_OPS_NATIVEINT, i as u64]);
        }
        let b = Block { tag: tag::CUSTOM, data: BlockData::Raw(f) };
        Value(rt.push_block(b))
    }

    /// Allocate a custom block of `n` zeroed opaque payload words after the
    /// operations word.  The model's collector never frees, so there is no
    /// finalizer to register.
    pub fn alloc_final(rt: &mut Runtime, n: usize) -> (r: Value)
        requires
            old(rt).wf(),
            old(rt).mem().len() < HEAP_MAX,
            n < usize::MAX,
        ensures
            final(rt).wf(),
            (final(rt).model() == RuntimeModel {
                mem: old(rt).mem().push(
                    BlockModel {
                        tag: tag::CUSTOM,
                        body: BodyModel::Raw(Seq::new((n + 1) as nat, |i: int| 0u64)),
                    },
                ),
                ..old(rt).model()
            }),
            mem_extends(final(rt).mem(), old(rt).mem()),
            r.0 == spec_addr(old(rt).mem().len() as int),
            word_points(final(rt).mem().len() as int, r.0),
            block_at(final(rt).mem(), r.0).tag == tag::CUSTOM,
    {
        let f = crate::runtime::filled_words(n + 1, 0);
        proof {
            assert(f@ =~= Seq::new((n + 1) as nat, |i: int| 0u64));
        }
        let b = Block { tag: tag::CUSTOM, data: BlockData::Raw(f) };
        Value(rt.push_block(b))
    }

    /// Allocate an abstract block wrapping one opaque handle word the
    /// collector never scans.
    pub fn alloc_abstract_ptr(rt: &mut Runtime, handle: u64) -> (r: Value)
        requires
            old(rt).wf(),
            old(rt).mem().len() < HEAP_MAX,
        ensures
            final(rt).wf(),
            (final(rt).model() == RuntimeModel {
                mem: old(rt).mem().push(
                    BlockModel { tag: tag::ABSTRACT, body: BodyModel::Raw(seq![handle]) },
                ),
                ..old(rt).model()
            }),
            mem_extends(final(rt).mem(), old(rt).mem()),
            r.0 == spec_addr(old(rt).mem().len() as int),
            word_points(final(rt).mem().len() as int, r.0),
    {
        let f: Vec<u64> = vec![handle];
        proof {
            assert(f@ =~= seq![handle]);
        }
        let b = Block { tag: tag::ABSTRACT, data: BlockData::Raw(f) };
        Value(rt.push_block(b))
    }

    /// The handle word stored in an abstract block.
    pub fn abstract_ptr_val(self, rt: &Runtime) -> (r: u64)
        requires
            rt.wf(),
            word_points(rt.mem().len() as int, self.0),
            (!(block_at(rt.mem(), self.0).body is Bytes)),
            block_fields(block_at(rt.mem(), self.0)).len() >= 1,
        ensures
            r == block_fields(block_at(rt.mem(), self.0))[0],
    {
        rt.load_field(self.0, 0)
    }

    /// The integer boxed in a 64-bit integer block.
    pub fn int64_val(self, rt: &Runtime) -> (r: i64)
        requires
            rt.wf(),
            word_points(rt.mem().len() as int, self.0),
            (block_at(rt.mem(), self.0).body matches BodyModel::Raw(f) && f.len() == 2 && f[0]
                == CUSTOM_OPS_INT64),
        ensures
            r == block_fields(block_at(rt.mem(), self.0))[1] as i64,
    {
        rt.load_field(self.0, 1) as i64
    }

    /// The integer boxed in a 32-bit integer block.
    pub fn int32_val(self, rt: &Runtime) -> (r: i32)
        requires
            rt.wf(),
            word_points(rt.mem().len() as int, self.0),
            (block_at(rt.mem(), self.0).body matches BodyModel::Raw(f) && f.len() == 2 && f[0]
                == CUSTOM_OPS_INT32),
        ensures
            r == (block_fields(block_at(rt.mem(), self.0))[1] as u32) as i32,
    {
        (rt.load_field(self.0, 1) as u32) as i32
    }

    /// The integer boxed in a native-width integer block.
    pub fn nativeint_val(self, rt: &Runtime) -> (r: i64)
        requires
            rt.wf(),
            word_points(rt.mem().len() as int, self.0),
            (block_at(rt.mem(), self.0).body matches BodyModel::Raw(f) && f.len() == 2 && f[0]
                == CUSTOM_OPS_NATIVEINT),
        ensures
            r == block_fields(block_at(rt.mem(), self.0))[1] as i64,
    {
        rt.load_field(self.0, 1) as i64
    }

    /// Register this value as a global root: the collector scans it for the
    /// whole life of the process, independent of any frame.
    pub fn register_global_root(self, rt: &mut Runtime)
        requires
            old(rt).wf(),
            word_ok(old(rt).mem().len() as int, self.0),
        ensures
            final(rt).wf(),
            (final(rt).model() == RuntimeModel {
                globals: old(rt).model().globals.push(self.0),
                ..old(rt).model()
            }),
    {
        rt.globals.push(self.0);
        proof {
            assert(rt.model().globals =~= old(rt).model().globals.push(self.0));
            assert(rt.model().mem =~= old(rt).model().mem);
            assert(rt.model().tables =~= old(rt).model().tables);
            assert(rt.model().named =~= old(rt).model().named);
        }
    }

    /// Remove this value's first registration from the global roots; with no
    /// registration the state is unchanged.
    pub fn remove_global_root(self, rt: &mut Runtime)
        requires
            old(rt).wf(),
        ensures
            final(rt).wf(),
            ((forall|j: int|
                0 <= j < old(rt).model().globals.len() ==> #[trigger] old(rt).model().globals[j]
                    != self.0) ==> final(rt).model() == old(rt).model()),
            ((exists|j: int|
                0 <= j < old(rt).model().globals.len() && #[trigger] old(rt).model().globals[j]
                    == self.0) ==> (exists|i: int|
                0 <= i < old(rt).model().globals.len() && #[trigger] old(rt).model().globals[i]
                    == self.0 && (forall|j: int|
                    0 <= j < i ==> #[trigger] old(rt).model().globals[j] != self.0)
                    && final(rt).model() == RuntimeModel {
                    globals: old(rt).model().globals.remove(i),
                    ..old(rt).model()
                })),
    {
        let mut i: usize = 0;
        while i < rt.globals.len()
            invariant
                i <= rt.globals.len(),
                rt.wf(),
                rt.model() == old(rt).model(),
                forall|j: int| 0 <= j < i ==> #[trigger] rt.model().globals[j] != self.0,
            decreases rt.globals.len() - i,
        {
            if rt.globals[i] == self.0 {
                rt.globals.remove(i);
                proof {
                    let og = old(rt).model().globals;
                    assert(rt.model().globals =~= og.remove(i as int));
                    assert(rt.model().mem =~= old(rt).model().mem);
                    assert(rt.model().tables =~= old(rt).model().tables);
                    assert(rt.model().named =~= old(rt).model().named);
                    assert(rt.model().slots =~= old(rt).model().slots);
                    assert forall|q: int|
                        0 <= q < rt.model().globals.len() implies word_ok(
                        rt.mem().len() as int,
                        #[trigger] rt.model().globals[q],
                    ) by {
                        if q < i as int {
                            assert(rt.model().globals[q] == og[q]);
                        } else {
                            assert(rt.model().globals[q] == og[q + 1]);
                        }
                    }
                }
                return;
            }
            i = i + 1;
        }
    }

    /// The tag of the block this value points at.
    pub fn tag(self, rt: &Runtime) -> (t: Tag)
        requires
            rt.wf(),
            word_points(rt.mem().len() as int, self.0),
        ensures
            t.0 == block_at(rt.mem(), self.0).tag,
    {
        Tag(rt.load_tag(self.0))
    }

    /// Read field `i` of the block this value points at.
    pub fn field(self, rt: &Runtime, i: usize) -> (r: Value)
        requires
            rt.wf(),
            word_points(rt.mem().len() as int, self.0),
            (!(block_at(rt.mem(), self.0).body is Bytes)),
            i < block_fields(block_at(rt.mem(), self.0)).len(),
        ensures
            r.0 == block_fields(block_at(rt.mem(), self.0))[i as int],
    {
        Value(rt.load_field(self.0, i))
    }

    /// Store a value into field `i` of the scanned block this value points
    /// at, through the write-barrier-aware update.
    pub fn store_field(self, rt: &mut Runtime, i: usize, val: Value)
        requires
            old(rt).wf(),
            word_points(old(rt).mem().len() as int, self.0),
            (block_at(old(rt).mem(), self.0).body is Fields),
            i < block_fields(block_at(old(rt).mem(), self.0)).len(),
            word_ok(old(rt).mem().len() as int, val.0),
        ensures
            final(rt).wf(),
            (final(rt).model() == RuntimeModel {
                mem: old(rt).mem().update(
                    spec_addr_index(self.0),
                    BlockModel {
                        tag: block_at(old(rt).mem(), self.0).tag,
                        body: BodyModel::Fields(
                            block_fields(block_at(old(rt).mem(), self.0)).update(i as int, val.0),
                        ),
                    },
                ),
                ..old(rt).model()
            }),
    {
        rt.store_field_raw(self.0, i, val.0)
    }

    /// Overwrite this value cell in place, as the barrier-aware update does.
    pub fn modify(&mut self, v: Value)
        ensures
            final(self).0 == v.0,
    {
        self.0 = v.0;
    }

    /// Initialize this value cell, as the initializing store does.
    pub fn initialize(&mut self, value: Value)
        ensures
            final(self).0 == value.0,
    {
        self.0 = value.0;
    }

    /// The number of fields of the array block this value points at.
    pub fn array_length(self, rt: &Runtime) -> (n: usize)
        requires
            rt.wf(),
            word_points(rt.mem().len() as int, self.0),
            (!(block_at(rt.mem(), self.0).body is Bytes)),
        ensures
            n == block_fields(block_at(rt.mem(), self.0)).len(),
    {
        rt.field_count(self.0)
    }

    /// Look up a value registered under `name` by the foreign runtime.
    pub fn named(rt: &Runtime, name: &[u8]) -> (r: Option<Value>)
        ensures
            (match lookup_named(rt.model().named, name@) {
                Some(w) => r == Some(Value(w)),
                None => r is None,
            }),
    {
        let mut i: usize = 0;
        proof {
            assert(rt.model().named.skip(0) =~= rt.model().named);
        }
        while i < rt.named.len()
            invariant
                i <= rt.named.len(),
                lookup_named(rt.model().named, name@) == lookup_named(
                    rt.model().named.skip(i as int),
                    name@,
                ),
            decreases rt.named.len() - i,
        {
            let e = &rt.named[i];
            let hit = bytes_eq(e.name.as_slice(), name);
            proof {
                assert(rt.model().named.skip(i as int)[0] == rt.model().named[i as int]);
            }
            if hit {
                return Some(Value(e.val));
            }
            proof {
                assert(rt.model().named.skip(i as int).drop_first() =~= rt.model().named.skip(
                    i as int + 1,
                ));
            }
            i = i + 1;
        }
        proof {
            assert(rt.model().named.skip(i as int).len() == 0);
        }
        None
    }
}

impl Runtime {
    /// Bind `name` to a value in the named-value registry, as the foreign
    /// runtime's registration primitive does at startup.
    pub fn bind_named(&mut self, name: &[u8], v: Value)
        requires
            old(self).wf(),
            word_ok(old(self).mem().len() as int, v.0),
        ensures
            final(self).wf(),
            (final(self).model() == RuntimeModel {
                named: old(self).model().named.push((name@, v.0)),
                ..old(self).model()
            }),
    {
        let entry = crate::runtime::NamedEntry { name: crate::runtime::copy_bytes(name), val: v.0 };
        self.named.push(entry);
        proof {
            assert(self.model().named =~= old(self).model().named.push((name@, v.0)));
            assert(self.model().mem =~= old(self).model().mem);
            assert(self.model().tables =~= old(self).model().tables);
        }
    }
}

} // verus!
