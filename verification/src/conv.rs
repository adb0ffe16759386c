//! The conversion layer: total, bidirectional mappings between native
//! shapes and the tagged value model.
//!
//! Scalars map to immediates or single-payload custom blocks; tuples and
//! growable sequences map to an N-field block tagged 0; optional values map
//! to a fixed immediate sentinel or a one-field wrapper block; ordered maps
//! and list-like sequences map to a cons representation, built in reverse
//! traversal order so the finished structure reads forward.
//!
//! For every shape, an `..._encodes` relation says what a heap word holding
//! an encoding looks like, the decoder's contract says exactly what it
//! returns, and a round-trip lemma proves that decoding an encoding gives
//! the original back.

use vstd::prelude::*;

use crate::raw;
use crate::runtime::{
    block_at, block_bytes, block_fields, mem_extends, spec_addr, word_ok, word_points, Block,
    BlockData, BlockModel, BodyModel, Runtime, RuntimeModel, HEAP_MAX,
};
use crate::tag;
use crate::value::{
    FromValue, ToValue, Value, CUSTOM_OPS_INT32, CUSTOM_OPS_INT64, CUSTOM_OPS_NATIVEINT,
};

verus! {

impl ToValue for i64 {
    open spec fn can_encode(self, rt: Runtime) -> bool {
        rt.mem().len() < HEAP_MAX
    }

    open spec fn encodes(self, rt: Runtime, v: Value) -> bool {
        int64_encodes(rt.mem(), v.0, self)
    }

    fn to_value(self, rt: &mut Runtime) -> (v: Value) {
        Value::int64(rt, self)
    }
}

impl FromValue for i64 {
    open spec fn can_decode(rt: Runtime, v: Value) -> bool {
        &&& word_points(rt.mem().len() as int, v.0)
        &&& (block_at(rt.mem(), v.0).body matches BodyModel::Raw(f) && f.len() == 2 && f[0]
            == CUSTOM_OPS_INT64)
    }

    open spec fn decode_spec(rt: Runtime, v: Value) -> i64 {
        int64_decode(rt.mem(), v.0)
    }

    fn from_value(rt: &Runtime, v: Value) -> (r: i64) {
        v.int64_val(rt)
    }
}

impl ToValue for u64 {
    open spec fn can_encode(self, rt: Runtime) -> bool {
        rt.mem().len() < HEAP_MAX
    }

    open spec fn encodes(self, rt: Runtime, v: Value) -> bool {
        int64_encodes(rt.mem(), v.0, self as i64)
    }

    fn to_value(self, rt: &mut Runtime) -> (v: Value) {
        Value::int64(rt, self as i64)
    }
}

impl FromValue for u64 {
    open spec fn can_decode(rt: Runtime, v: Value) -> bool {
        &&& word_points(rt.mem().len() as int, v.0)
        &&& (block_at(rt.mem(), v.0).body matches BodyModel::Raw(f) && f.len() == 2 && f[0]
            == CUSTOM_OPS_INT64)
    }

    open spec fn decode_spec(rt: Runtime, v: Value) -> u64 {
        int64_decode(rt.mem(), v.0) as u64
    }

    fn from_value(rt: &Runtime, v: Value) -> (r: u64) {
        v.int64_val(rt) as u64
    }
}

impl ToValue for i32 {
    open spec fn can_encode(self, rt: Runtime) -> bool {
        rt.mem().len() < HEAP_MAX
    }

    open spec fn encodes(self, rt: Runtime, v: Value) -> bool {
        int32_encodes(rt.mem(), v.0, self)
    }

    fn to_value(self, rt: &mut Runtime) -> (v: Value) {
        Value::int32(rt, self)
    }
}

impl FromValue for i32 {
    open spec fn can_decode(rt: Runtime, v: Value) -> bool {
        &&& word_points(rt.mem().len() as int, v.0)
        &&& (block_at(rt.mem(), v.0).body matches BodyModel::Raw(f) && f.len() == 2 && f[0]
            == CUSTOM_OPS_INT32)
    }

    open spec fn decode_spec(rt: Runtime, v: Value) -> i32 {
        int32_decode(rt.mem(), v.0)
    }

    fn from_value(rt: &Runtime, v: Value) -> (r: i32) {
        v.int32_val(rt)
    }
}

impl ToValue for u32 {
    open spec fn can_encode(self, rt: Runtime) -> bool {
        rt.mem().len() < HEAP_MAX
    }

    open spec fn encodes(self, rt: Runtime, v: Value) -> bool {
        int32_encodes(rt.mem(), v.0, self as i32)
    }

    fn to_value(self, rt: &mut Runtime) -> (v: Value) {
        Value::int32(rt, self as i32)
    }
}

impl FromValue for u32 {
    open spec fn can_decode(rt: Runtime, v: Value) -> bool {
        &&& word_points(rt.mem().len() as int, v.0)
        &&& (block_at(rt.mem(), v.0).body matches BodyModel::Raw(f) && f.len() == 2 && f[0]
            == CUSTOM_OPS_INT32)
    }

    open spec fn decode_spec(rt: Runtime, v: Value) -> u32 {
        int32_decode(rt.mem(), v.0) as u32
    }

    fn from_value(rt: &Runtime, v: Value) -> (r: u32) {
        v.int32_val(rt) as u32
    }
}

impl ToValue for bool {
    open spec fn can_encode(self, rt: Runtime) -> bool {
        true
    }

    open spec fn encodes(self, rt: Runtime, v: Value) -> bool {
        bool_encodes(v.0, self)
    }

    fn to_value(self, rt: &mut Runtime) -> (v: Value) {
        proof {
            assert(1u64 & 1 == 1 && 3u64 & 1 == 1) by (bit_vector);
        }
        Value::bool(self)
    }
}

impl FromValue for bool {
    open spec fn can_decode(rt: Runtime, v: Value) -> bool {
        true
    }

    open spec fn decode_spec(rt: Runtime, v: Value) -> bool {
        bool_decode(v.0)
    }

    fn from_value(rt: &Runtime, v: Value) -> (r: bool) {
        v.int_val() != 0
    }
}

/// The raw words of a sequence of values.
pub open spec fn words_of(vs: Seq<Value>) -> Seq<u64> {
    vs.map_values(|v: Value| v.0)
}

/// The raw word pairs of a sequence of value pairs.
pub open spec fn pair_words_of(ps: Seq<(Value, Value)>) -> Seq<(u64, u64)> {
    ps.map_values(|p: (Value, Value)| (p.0.0, p.1.0))
}

/// Word `w` encodes the boolean `b`.
pub open spec fn bool_encodes(w: u64, b: bool) -> bool {
    w == (if b {
        raw::TRUE
    } else {
        raw::FALSE
    })
}

/// The boolean a word decodes to: any nonzero immediate reads as true.
pub open spec fn bool_decode(w: u64) -> bool {
    raw::spec_int_val(w) != 0
}

/// Decoding the encoding of a boolean gives the boolean back.
pub proof fn lemma_bool_round_trip(w: u64, b: bool)
    requires
        bool_encodes(w, b),
    ensures
        bool_decode(w) == b,
{
    assert((3u64 as i64) >> 1 == 1) by (bit_vector);
    assert((1u64 as i64) >> 1 == 0) by (bit_vector);
}

/// In heap `m`, word `w` encodes the boxed 64-bit integer `i`.
pub open spec fn int64_encodes(m: Seq<BlockModel>, w: u64, i: i64) -> bool {
    &&& word_points(m.len() as int, w)
    &&& block_at(m, w).tag == tag::CUSTOM
    &&& (block_at(m, w).body matches BodyModel::Raw(f) && f == seq![CUSTOM_OPS_INT64, i as u64])
}

/// The integer a boxed 64-bit integer block decodes to.
pub open spec fn int64_decode(m: Seq<BlockModel>, w: u64) -> i64 {
    block_fields(block_at(m, w))[1] as i64
}

/// Decoding the encoding of a 64-bit integer gives the integer back.
pub proof fn lemma_int64_round_trip(m: Seq<BlockModel>, w: u64, i: i64)
    requires
        int64_encodes(m, w, i),
    ensures
        int64_decode(m, w) == i,
{
    assert(((i as u64) as i64) == i) by (bit_vector);
}

/// In heap `m`, word `w` encodes the boxed 32-bit integer `i`.
pub open spec fn int32_encodes(m: Seq<BlockModel>, w: u64, i: i32) -> bool {
    &&& word_points(m.len() as int, w)
    &&& block_at(m, w).tag == tag::CUSTOM
    &&& (block_at(m, w).body matches BodyModel::Raw(f) && f == seq![
        CUSTOM_OPS_INT32,
        (i as u32) as u64,
    ])
}

/// The integer a boxed 32-bit integer block decodes to.
pub open spec fn int32_decode(m: Seq<BlockModel>, w: u64) -> i32 {
    (block_fields(block_at(m, w))[1] as u32) as i32
}

/// Decoding the encoding of a 32-bit integer gives the integer back.
pub proof fn lemma_int32_round_trip(m: Seq<BlockModel>, w: u64, i: i32)
    requires
        int32_encodes(m, w, i),
    ensures
        int32_decode(m, w) == i,
{
    assert(((((i as u32) as u64) as u32) as i32) == i) by (bit_vector);
}

/// In heap `m`, word `w` encodes the boxed native-width integer `i`.
pub open spec fn nativeint_encodes(m: Seq<BlockModel>, w: u64, i: i64) -> bool {
    &&& word_points(m.len() as int, w)
    &&& block_at(m, w).tag == tag::CUSTOM
    &&& (block_at(m, w).body matches BodyModel::Raw(f) && f == seq![CUSTOM_OPS_NATIVEINT, i as u64])
}

/// Decoding the encoding of a native-width integer gives it back.
pub proof fn lemma_nativeint_round_trip(m: Seq<BlockModel>, w: u64, i: i64)
    requires
        nativeint_encodes(m, w, i),
    ensures
        block_fields(block_at(m, w))[1] as i64 == i,
{
    assert(((i as u64) as i64) == i) by (bit_vector);
}

/// Decoding the encoding of an unsigned 64-bit integer gives it back.
pub proof fn lemma_u64_round_trip(m: Seq<BlockModel>, w: u64, x: u64)
    requires
        int64_encodes(m, w, x as i64),
    ensures
        int64_decode(m, w) as u64 == x,
{
    assert(((((x as i64) as u64) as i64) as u64) == x) by (bit_vector);
}

/// Decoding the encoding of an unsigned 32-bit integer gives it back.
pub proof fn lemma_u32_round_trip(m: Seq<BlockModel>, w: u64, x: u32)
    requires
        int32_encodes(m, w, x as i32),
    ensures
        int32_decode(m, w) as u32 == x,
{
    assert((((((x as i32) as u32) as u64) as u32) as i32) as u32 == x) by (bit_vector);
}

/// In heap `m`, word `w` encodes the byte string `bs`.
pub open spec fn string_encodes(m: Seq<BlockModel>, w: u64, bs: Seq<u8>) -> bool {
    &&& word_points(m.len() as int, w)
    &&& block_at(m, w).tag == tag::STRING
    &&& (block_at(m, w).body matches BodyModel::Bytes(s) && s == bs)
}

/// Decoding the encoding of a byte string gives the bytes back.
pub proof fn lemma_string_round_trip(m: Seq<BlockModel>, w: u64, bs: Seq<u8>)
    requires
        string_encodes(m, w, bs),
    ensures
        block_bytes(block_at(m, w)) == bs,
{
}

/// Copy the contents of a text/byte block into owned storage.
pub fn bytes_from_value(rt: &Runtime, v: Value) -> (r: Vec<u8>)
    requires
        rt.wf(),
        word_points(rt.mem().len() as int, v.0),
        (block_at(rt.mem(), v.0).body is Bytes),
    ensures
        r@ == block_bytes(block_at(rt.mem(), v.0)),
{
    rt.load_bytes(v.0)
}

/// In heap `m`, word `w` encodes the optional payload word `x`: the fixed
/// sentinel for absence, a one-field wrapper block tagged 0 for presence.
pub open spec fn option_encodes(m: Seq<BlockModel>, w: u64, x: Option<u64>) -> bool {
    match x {
        None => w == raw::UNIT,
        Some(u) => {
            &&& word_points(m.len() as int, w)
            &&& block_at(m, w).tag == 0
            &&& (block_at(m, w).body matches BodyModel::Fields(f) && f == seq![u])
        },
    }
}

/// The optional payload a word decodes to.  Absence is decided purely by
/// comparison with the sentinel, not by tag inspection: an immediate whose
/// encoding collides with the sentinel reads as absent.
pub open spec fn option_decode(m: Seq<BlockModel>, w: u64) -> Option<u64> {
    if w == raw::UNIT {
        None
    } else {
        Some(block_fields(block_at(m, w))[0])
    }
}

/// Decoding the encoding of an optional value gives it back.
pub proof fn lemma_option_round_trip(m: Seq<BlockModel>, w: u64, x: Option<u64>)
    requires
        option_encodes(m, w, x),
    ensures
        option_decode(m, w) == x,
{
}

/// Encode an optional value: the sentinel for `None`, a fresh one-field
/// wrapper for `Some`.
pub fn option_to_value(rt: &mut Runtime, x: Option<Value>) -> (r: Value)
    requires
        old(rt).wf(),
        old(rt).mem().len() < HEAP_MAX,
        (x matches Some(v) ==> word_ok(old(rt).mem().len() as int, v.0)),
    ensures
        final(rt).wf(),
        mem_extends(final(rt).mem(), old(rt).mem()),
        (final(rt).model() == RuntimeModel { mem: final(rt).model().mem, ..old(rt).model() }),
        word_ok(final(rt).mem().len() as int, r.0),
        option_encodes(
            final(rt).mem(),
            r.0,
            match x {
                Some(v) => Some(v.0),
                None => None,
            },
        ),
        (x is None ==> final(rt).mem() == old(rt).mem()),
    {
    match x {
        None => {
            proof {
                assert(1u64 & 1 == 1) by (bit_vector);
            }
            Value::none()
        },
        Some(v) => {
            let r = Value::some(rt, v);
            r
        },
    }
}

/// Decode an optional value by comparing against the absence sentinel.
pub fn option_from_value(rt: &Runtime, v: Value) -> (r: Option<Value>)
    requires
        rt.wf(),
        v.0 != raw::UNIT ==> word_points(rt.mem().len() as int, v.0),
        v.0 != raw::UNIT ==> (!(block_at(rt.mem(), v.0).body is Bytes)),
        v.0 != raw::UNIT ==> block_fields(block_at(rt.mem(), v.0)).len() >= 1,
    ensures
        (match option_decode(rt.mem(), v.0) {
            None => r is None,
            Some(u) => r == Some(Value(u)),
        }),
{
    if v.0 == raw::UNIT {
        None
    } else {
        Some(v.field(rt, 0))
    }
}

/// In heap `m`, word `w` encodes the tuple/sequence with field words `ws`.
pub open spec fn tuple_encodes(m: Seq<BlockModel>, w: u64, ws: Seq<u64>) -> bool {
    &&& word_points(m.len() as int, w)
    &&& block_at(m, w).tag == 0
    &&& (block_at(m, w).body matches BodyModel::Fields(f) && f == ws)
}

/// Encode a tuple or growable sequence: one block tagged 0 whose fields are
/// the elements in declared order, allocated once at final length.
pub fn tuple_to_value(rt: &mut Runtime, elems: &Vec<Value>) -> (r: Value)
    requires
        old(rt).wf(),
        old(rt).mem().len() < HEAP_MAX,
        forall|i: int| 0 <= i < elems@.len() ==> word_ok(
            old(rt).mem().len() as int,
            (#[trigger] elems@[i]).0,
        ),
    ensures
        final(rt).wf(),
        mem_extends(final(rt).mem(), old(rt).mem()),
        (final(rt).model() == RuntimeModel {
            mem: old(rt).mem().push(
                BlockModel { tag: 0, body: BodyModel::Fields(words_of(elems@)) },
            ),
            ..old(rt).model()
        }),
        r.0 == spec_addr(old(rt).mem().len() as int),
        word_points(final(rt).mem().len() as int, r.0),
        tuple_encodes(final(rt).mem(), r.0, words_of(elems@)),
{
    let mut ws: Vec<u64> = Vec::new();
    let mut i: usize = 0;
    while i < elems.len()
        invariant
            i <= elems.len(),
            ws@ == words_of(elems@).subrange(0, i as int),
        decreases elems.len() - i,
    {
        ws.push(elems[i].0);
        i = i + 1;
        proof {
            assert(ws@ =~= words_of(elems@).subrange(0, i as int));
        }
    }
    proof {
        assert(ws@ =~= words_of(elems@));
    }
    let b = Block { tag: 0, data: BlockData::Fields(ws) };
    Value(rt.push_block(b))
}

/// Decode the fields of a scanned block, in order.
pub fn tuple_from_value(rt: &Runtime, v: Value) -> (r: Vec<Value>)
    requires
        rt.wf(),
        word_points(rt.mem().len() as int, v.0),
        (block_at(rt.mem(), v.0).body is Fields),
    ensures
        words_of(r@) == block_fields(block_at(rt.mem(), v.0)),
        r@.len() == block_fields(block_at(rt.mem(), v.0)).len(),
        forall|i: int| 0 <= i < r@.len() ==> (#[trigger] r@[i]).0 == block_fields(
            block_at(rt.mem(), v.0),
        )[i],
{
    let n = rt.field_count(v.0);
    let mut r: Vec<Value> = Vec::new();
    let mut i: usize = 0;
    while i < n
        invariant
            i <= n,
            rt.wf(),
            word_points(rt.mem().len() as int, v.0),
            (block_at(rt.mem(), v.0).body is Fields),
            n == block_fields(block_at(rt.mem(), v.0)).len(),
            r@.len() == i,
            forall|j: int| 0 <= j < i ==> (#[trigger] r@[j]).0 == block_fields(
                block_at(rt.mem(), v.0),
            )[j],
        decreases n - i,
    {
        r.push(v.field(rt, i));
        i = i + 1;
    }
    proof {
        assert(words_of(r@) =~= block_fields(block_at(rt.mem(), v.0)));
    }
    r
}

/// Decoding the encoding of a tuple gives its fields back.
pub proof fn lemma_tuple_round_trip(m: Seq<BlockModel>, w: u64, ws: Seq<u64>)
    requires
        tuple_encodes(m, w, ws),
    ensures
        block_fields(block_at(m, w)) == ws,
{
}

/// In heap `m`, word `w` is the cons representation of the element words
/// `elems`: the empty sentinel for nil, two-field (head, tail) blocks
/// tagged 0 for cells.
pub open spec fn list_repr(m: Seq<BlockModel>, w: u64, elems: Seq<u64>) -> bool
    decreases elems.len(),
{
    if elems.len() == 0 {
        w == raw::EMPTY_LIST
    } else {
        &&& word_points(m.len() as int, w)
        &&& block_at(m, w).tag == 0
        &&& (block_at(m, w).body is Fields)
        &&& block_fields(block_at(m, w)).len() == 2
        &&& block_fields(block_at(m, w))[0] == elems[0]
        &&& list_repr(m, block_fields(block_at(m, w))[1], elems.drop_first())
    }
}

/// A cons representation survives any heap extension.
pub proof fn lemma_list_repr_extends(
    m1: Seq<BlockModel>,
    m2: Seq<BlockModel>,
    w: u64,
    elems: Seq<u64>,
)
    requires
        list_repr(m1, w, elems),
        mem_extends(m2, m1),
    ensures
        list_repr(m2, w, elems),
    decreases elems.len(),
{
    if elems.len() > 0 {
        crate::runtime::lemma_extends_block(m1, m2, w);
        lemma_list_repr_extends(m1, m2, block_fields(block_at(m1, w))[1], elems.drop_first());
    }
}

/// A word represents at most one element sequence.
pub proof fn lemma_list_repr_unique(m: Seq<BlockModel>, w: u64, e1: Seq<u64>, e2: Seq<u64>)
    requires
        list_repr(m, w, e1),
        list_repr(m, w, e2),
    ensures
        e1 == e2,
    decreases e1.len(),
{
    if e1.len() == 0 {
        if e2.len() > 0 {
            assert(word_points(m.len() as int, raw::EMPTY_LIST));
            assert(false);
        }
        assert(e1 =~= e2);
    } else {
        if e2.len() == 0 {
            assert(word_points(m.len() as int, raw::EMPTY_LIST));
            assert(false);
        }
        lemma_list_repr_unique(
            m,
            block_fields(block_at(m, w))[1],
            e1.drop_first(),
            e2.drop_first(),
        );
        assert forall|j: int| 0 <= j < e1.len() implies e1[j] == e2[j] by {
            if j > 0 {
                assert(e1.drop_first()[j - 1] == e1[j]);
                assert(e2.drop_first()[j - 1] == e2[j]);
            }
        }
        assert(e1 =~= e2);
    }
}

/// Encode a list-like sequence as cons cells, emitting elements in reverse
/// traversal order so the finished list reads forward.
pub fn list_to_value(rt: &mut Runtime, elems: &Vec<Value>) -> (r: Value)
    requires
        old(rt).wf(),
        old(rt).mem().len() + elems@.len() <= HEAP_MAX,
        forall|i: int| 0 <= i < elems@.len() ==> word_ok(
            old(rt).mem().len() as int,
            (#[trigger] elems@[i]).0,
        ),
    ensures
        final(rt).wf(),
        mem_extends(final(rt).mem(), old(rt).mem()),
        (final(rt).model() == RuntimeModel { mem: final(rt).model().mem, ..old(rt).model() }),
        final(rt).mem().len() == old(rt).mem().len() + elems@.len(),
        word_ok(final(rt).mem().len() as int, r.0),
        list_repr(final(rt).mem(), r.0, words_of(elems@)),
{
    let ghost ws = words_of(elems@);
    let mut acc = Value(raw::EMPTY_LIST);
    let mut i: usize = elems.len();
    proof {
        assert(1u64 & 1 == 1) by (bit_vector);
        assert(ws.skip(elems@.len() as int) =~= Seq::<u64>::empty());
    }
    while i > 0
        invariant
            i <= elems@.len(),
            rt.wf(),
            mem_extends(rt.mem(), old(rt).mem()),
            (rt.model() == RuntimeModel { mem: rt.model().mem, ..old(rt).model() }),
            rt.mem().len() == old(rt).mem().len() + (elems@.len() - i),
            old(rt).mem().len() + elems@.len() <= HEAP_MAX,
            ws == words_of(elems@),
            forall|j: int| 0 <= j < elems@.len() ==> word_ok(
                old(rt).mem().len() as int,
                (#[trigger] elems@[j]).0,
            ),
            list_repr(rt.mem(), acc.0, ws.skip(i as int)),
            word_ok(rt.mem().len() as int, acc.0),
        decreases i,
    {
        i = i - 1;
        let e = elems[i];
        proof {
            assert(word_ok(old(rt).mem().len() as int, e.0));
        }
        let f: Vec<u64> = vec![e.0, acc.0];
        proof {
            assert(f@ =~= seq![e.0, acc.0]);
        }
        let b = Block { tag: 0, data: BlockData::Fields(f) };
        let ghost m1 = rt.mem();
        let cell = rt.push_block(b);
        proof {
            lemma_list_repr_extends(m1, rt.mem(), acc.0, ws.skip(i as int + 1));
            assert(ws.skip(i as int)[0] == ws[i as int]);
            assert(ws.skip(i as int).drop_first() =~= ws.skip(i as int + 1));
            assert(ws[i as int] == e.0);
            assert(block_fields(block_at(rt.mem(), cell))[0] == e.0);
            assert(block_fields(block_at(rt.mem(), cell))[1] == acc.0);
            assert(list_repr(rt.mem(), cell, ws.skip(i as int)));
        }
        acc = Value(cell);
    }
    proof {
        assert(ws.skip(0) =~= ws);
    }
    acc
}

/// Decode a cons representation into a vector of elements, in order.
pub fn list_from_value(rt: &Runtime, v: Value) -> (r: Vec<Value>)
    requires
        rt.wf(),
        (exists|es: Seq<u64>| list_repr(rt.mem(), v.0, es)),
    ensures
        list_repr(rt.mem(), v.0, words_of(r@)),
{
    let ghost es = choose|es: Seq<u64>| list_repr(rt.mem(), v.0, es);
    let ghost mut remaining = es;
    let mut r: Vec<Value> = Vec::new();
    let mut cur = v;
    proof {
        assert(words_of(r@) + remaining =~= es);
    }
    while cur.0 != raw::EMPTY_LIST
        invariant
            rt.wf(),
            list_repr(rt.mem(), cur.0, remaining),
            words_of(r@) + remaining == es,
            list_repr(rt.mem(), v.0, es),
        decreases remaining.len(),
    {
        proof {
            if remaining.len() == 0 {
                assert(cur.0 == raw::EMPTY_LIST);
            }
        }
        let head = cur.field(rt, 0);
        let tail = cur.field(rt, 1);
        let ghost prev_words = words_of(r@);
        r.push(head);
        proof {
            assert(words_of(r@) =~= prev_words.push(head.0));
            assert(prev_words.push(remaining[0]) + remaining.drop_first() =~= prev_words
                + remaining);
            remaining = remaining.drop_first();
        }
        cur = tail;
    }
    proof {
        if remaining.len() > 0 {
            assert(word_points(rt.mem().len() as int, raw::EMPTY_LIST));
            assert(false);
        }
        assert(words_of(r@) =~= es);
    }
    r
}

/// In heap `m`, word `w` is the cons representation of an ordered map: each
/// cell's head is a two-field (key, value) block tagged 0.
pub open spec fn map_repr(m: Seq<BlockModel>, w: u64, pairs: Seq<(u64, u64)>) -> bool
    decreases pairs.len(),
{
    if pairs.len() == 0 {
        w == raw::EMPTY_LIST
    } else {
        &&& word_points(m.len() as int, w)
        &&& block_at(m, w).tag == 0
        &&& (block_at(m, w).body is Fields)
        &&& block_fields(block_at(m, w)).len() == 2
        &&& word_points(m.len() as int, block_fields(block_at(m, w))[0])
        &&& block_at(m, block_fields(block_at(m, w))[0]).tag == 0
        &&& (block_at(m, block_fields(block_at(m, w))[0]).body matches BodyModel::Fields(pf)
            && pf == seq![pairs[0].0, pairs[0].1])
        &&& map_repr(m, block_fields(block_at(m, w))[1], pairs.drop_first())
    }
}

/// A map representation survives any heap extension.
pub proof fn lemma_map_repr_extends(
    m1: Seq<BlockModel>,
    m2: Seq<BlockModel>,
    w: u64,
    pairs: Seq<(u64, u64)>,
)
    requires
        map_repr(m1, w, pairs),
        mem_extends(m2, m1),
    ensures
        map_repr(m2, w, pairs),
    decreases pairs.len(),
{
    if pairs.len() > 0 {
        crate::runtime::lemma_extends_block(m1, m2, w);
        crate::runtime::lemma_extends_block(m1, m2, block_fields(block_at(m1, w))[0]);
        lemma_map_repr_extends(m1, m2, block_fields(block_at(m1, w))[1], pairs.drop_first());
    }
}

/// A word represents at most one pair sequence.
pub proof fn lemma_map_repr_unique(
    m: Seq<BlockModel>,
    w: u64,
    ps1: Seq<(u64, u64)>,
    ps2: Seq<(u64, u64)>,
)
    requires
        map_repr(m, w, ps1),
        map_repr(m, w, ps2),
    ensures
        ps1 == ps2,
    decreases ps1.len(),
{
    if ps1.len() == 0 {
        if ps2.len() > 0 {
            assert(word_points(m.len() as int, raw::EMPTY_LIST));
            assert(false);
        }
        assert(ps1 =~= ps2);
    } else {
        if ps2.len() == 0 {
            assert(word_points(m.len() as int, raw::EMPTY_LIST));
            assert(false);
        }
        lemma_map_repr_unique(
            m,
            block_fields(block_at(m, w))[1],
            ps1.drop_first(),
            ps2.drop_first(),
        );
        assert(ps1[0].0 == ps2[0].0 && ps1[0].1 == ps2[0].1);
        assert forall|j: int| 0 <= j < ps1.len() implies ps1[j] == ps2[j] by {
            if j > 0 {
                assert(ps1.drop_first()[j - 1] == ps1[j]);
                assert(ps2.drop_first()[j - 1] == ps2[j]);
            }
        }
        assert(ps1 =~= ps2);
    }
}

/// Encode an ordered map as a cons list of (key, value) blocks, emitting
/// entries in reverse traversal order so the finished list reads in
/// insertion order.
pub fn map_to_value(rt: &mut Runtime, pairs: &Vec<(Value, Value)>) -> (r: Value)
    requires
        old(rt).wf(),
        old(rt).mem().len() + 2 * pairs@.len() <= HEAP_MAX,
        forall|i: int|
            0 <= i < pairs@.len() ==> word_ok(old(rt).mem().len() as int, (#[trigger] pairs@[i]).0.0)
                && word_ok(old(rt).mem().len() as int, pairs@[i].1.0),
    ensures
        final(rt).wf(),
        mem_extends(final(rt).mem(), old(rt).mem()),
        (final(rt).model() == RuntimeModel { mem: final(rt).model().mem, ..old(rt).model() }),
        final(rt).mem().len() == old(rt).mem().len() + 2 * pairs@.len(),
        word_ok(final(rt).mem().len() as int, r.0),
        map_repr(final(rt).mem(), r.0, pair_words_of(pairs@)),
{
    let ghost pws = pair_words_of(pairs@);
    let mut acc = Value(raw::EMPTY_LIST);
    let mut i: usize = pairs.len();
    proof {
        assert(1u64 & 1 == 1) by (bit_vector);
        assert(pws.skip(pairs@.len() as int) =~= Seq::<(u64, u64)>::empty());
    }
    while i > 0
        invariant
            i <= pairs@.len(),
            rt.wf(),
            mem_extends(rt.mem(), old(rt).mem()),
            (rt.model() == RuntimeModel { mem: rt.model().mem, ..old(rt).model() }),
            rt.mem().len() == old(rt).mem().len() + 2 * (pairs@.len() - i),
            old(rt).mem().len() + 2 * pairs@.len() <= HEAP_MAX,
            pws == pair_words_of(pairs@),
            forall|j: int|
                0 <= j < pairs@.len() ==> word_ok(
                    old(rt).mem().len() as int,
                    (#[trigger] pairs@[j]).0.0,
                ) && word_ok(old(rt).mem().len() as int, pairs@[j].1.0),
            map_repr(rt.mem(), acc.0, pws.skip(i as int)),
            word_ok(rt.mem().len() as int, acc.0),
        decreases i,
    {
        i = i - 1;
        let p = pairs[i];
        proof {
            assert(word_ok(old(rt).mem().len() as int, p.0.0));
            assert(word_ok(old(rt).mem().len() as int, p.1.0));
        }
        let pf: Vec<u64> = vec![p.0.0, p.1.0];
        proof {
            assert(pf@ =~= seq![p.0.0, p.1.0]);
        }
        let pb = Block { tag: 0, data: BlockData::Fields(pf) };
        let ghost m1 = rt.mem();
        let pcell = rt.push_block(pb);
        proof {
            lemma_map_repr_extends(m1, rt.mem(), acc.0, pws.skip(i as int + 1));
        }
        let cf: Vec<u64> = vec![pcell, acc.0];
        proof {
            assert(cf@ =~= seq![pcell, acc.0]);
        }
        let cb = Block { tag: 0, data: BlockData::Fields(cf) };
        let ghost m2 = rt.mem();
        let cell = rt.push_block(cb);
        proof {
            lemma_map_repr_extends(m2, rt.mem(), acc.0, pws.skip(i as int + 1));
            crate::runtime::lemma_extends_block(m2, rt.mem(), pcell);
            assert(pws.skip(i as int)[0] == pws[i as int]);
            assert(pws.skip(i as int).drop_first() =~= pws.skip(i as int + 1));
            assert(pws[i as int] == (p.0.0, p.1.0));
            assert(map_repr(rt.mem(), cell, pws.skip(i as int)));
        }
        acc = Value(cell);
    }
    proof {
        assert(pws.skip(0) =~= pws);
    }
    acc
}

/// Decode a cons representation of an ordered map into its (key, value)
/// pairs, in order.
pub fn map_from_value(rt: &Runtime, v: Value) -> (r: Vec<(Value, Value)>)
    requires
        rt.wf(),
        (exists|ps: Seq<(u64, u64)>| map_repr(rt.mem(), v.0, ps)),
    ensures
        map_repr(rt.mem(), v.0, pair_words_of(r@)),
{
    let ghost ps = choose|ps: Seq<(u64, u64)>| map_repr(rt.mem(), v.0, ps);
    let ghost mut remaining = ps;
    let mut r: Vec<(Value, Value)> = Vec::new();
    let mut cur = v;
    proof {
        assert(pair_words_of(r@) + remaining =~= ps);
    }
    while cur.0 != raw::EMPTY_LIST
        invariant
            rt.wf(),
            map_repr(rt.mem(), cur.0, remaining),
            pair_words_of(r@) + remaining == ps,
        decreases remaining.len(),
    {
        proof {
            if remaining.len() == 0 {
                assert(cur.0 == raw::EMPTY_LIST);
            }
        }
        let pcell = cur.field(rt, 0);
        let tail = cur.field(rt, 1);
        let k = pcell.field(rt, 0);
        let val = pcell.field(rt, 1);
        let ghost prev_words = pair_words_of(r@);
        r.push((k, val));
        proof {
            assert(pair_words_of(r@) =~= prev_words.push((k.0, val.0)));
            assert(prev_words.push(remaining[0]) + remaining.drop_first() =~= prev_words
                + remaining);
            remaining = remaining.drop_first();
        }
        cur = tail;
    }
    proof {
        if remaining.len() > 0 {
            assert(word_points(rt.mem().len() as int, raw::EMPTY_LIST));
            assert(false);
        }
        assert(pair_words_of(r@) =~= ps);
    }
    r
}

} // verus!
