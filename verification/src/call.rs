//! The call protocol: invoking a closure value and translating its outcome.
//!
//! A callable value is a block tagged `CLOSURE`.  In this model a closure's
//! code is one of three primitives, selected by the immediate in its first
//! field: return the first argument, return the captured value in its second
//! field, or raise the captured value.  The call protocol itself is what is
//! verified: a callee whose tag is not `CLOSURE` fails with `NotCallable`
//! before invocation and without side effects; otherwise the raw result
//! word's low bits are inspected, a raised value is unwrapped into an
//! `Exception` error, and a normal result is returned as a value.

use vstd::prelude::*;

use crate::raw;
use crate::runtime::{
    block_at, block_fields, spec_addr, word_ok, word_points, Block, BlockData, BlockModel,
    BodyModel, Runtime, RuntimeModel, HEAP_MAX,
};
use crate::tag;
use crate::value::Value;
use crate::Error;

verus! {

/// Code selector for the primitive that returns its first argument.
pub const CODE_IDENTITY: i64 = 0;

/// Code selector for the primitive that returns its captured value.
pub const CODE_CONSTANT: i64 = 1;

/// Code selector for the primitive that raises its captured value.
pub const CODE_RAISE: i64 = 2;

/// The code selector word of a closure block.
pub open spec fn closure_code(m: Seq<BlockModel>, f: u64) -> u64 {
    block_fields(block_at(m, f))[0]
}

/// The captured value word of a closure block.
pub open spec fn closure_payload(m: Seq<BlockModel>, f: u64) -> u64 {
    block_fields(block_at(m, f))[1]
}

/// Is `f` a well-shaped closure of this model: a two-field `CLOSURE` block
/// whose first field selects one of the three primitives, and whose
/// captured value is meaningful (and a block, for the raising primitive)?
pub open spec fn is_model_closure(m: Seq<BlockModel>, f: u64) -> bool {
    &&& word_points(m.len() as int, f)
    &&& block_at(m, f).tag == tag::CLOSURE
    &&& (block_at(m, f).body is Fields)
    &&& block_fields(block_at(m, f)).len() == 2
    &&& (closure_code(m, f) == raw::spec_val_int(CODE_IDENTITY) || closure_code(m, f)
        == raw::spec_val_int(CODE_CONSTANT) || closure_code(m, f) == raw::spec_val_int(CODE_RAISE))
    &&& word_ok(m.len() as int, closure_payload(m, f))
    &&& (closure_code(m, f) == raw::spec_val_int(CODE_RAISE) ==> word_points(
        m.len() as int,
        closure_payload(m, f),
    ))
}

/// The raw word the foreign call primitive hands back: the argument, the
/// captured value, or the captured value marked as an exception result.
pub open spec fn call_result(m: Seq<BlockModel>, f: u64, arg: u64) -> u64 {
    if closure_code(m, f) == raw::spec_val_int(CODE_IDENTITY) {
        arg
    } else if closure_code(m, f) == raw::spec_val_int(CODE_CONSTANT) {
        closure_payload(m, f)
    } else {
        raw::spec_make_exception_result(closure_payload(m, f))
    }
}

/// What a call to closure `f` with first argument `arg` returns after the
/// raw result's low bits are inspected.
pub open spec fn spec_call(m: Seq<BlockModel>, f: u64, arg: u64) -> Result<Value, Error> {
    let w = call_result(m, f, arg);
    if raw::spec_is_exception_result(w) {
        Err(Error::Exception(Value(raw::spec_extract_exception(w))))
    } else {
        Ok(Value(w))
    }
}

/// The call protocol's classification, spelled out per primitive: the
/// identity primitive returns the argument, the constant primitive returns
/// the captured value, and the raising primitive returns an `Exception`
/// error wrapping exactly the raised value.
pub proof fn lemma_call_classification(m: Seq<BlockModel>, f: u64, arg: u64)
    requires
        is_model_closure(m, f),
        word_ok(m.len() as int, arg),
    ensures
        closure_code(m, f) == raw::spec_val_int(CODE_IDENTITY) ==> spec_call(m, f, arg) == Ok::<
            Value,
            Error,
        >(Value(arg)),
        closure_code(m, f) == raw::spec_val_int(CODE_CONSTANT) ==> spec_call(m, f, arg) == Ok::<
            Value,
            Error,
        >(Value(closure_payload(m, f))),
        closure_code(m, f) == raw::spec_val_int(CODE_RAISE) ==> spec_call(m, f, arg) == Err::<
            Value,
            Error,
        >(Error::Exception(Value(closure_payload(m, f)))),
{
    assert(raw::spec_val_int(0) == 1 && raw::spec_val_int(1) == 3 && raw::spec_val_int(2) == 5)
        by (bit_vector);
    if closure_code(m, f) == raw::spec_val_int(CODE_RAISE) {
        crate::runtime::lemma_exception_mark(closure_payload(m, f));
    } else {
        let w = call_result(m, f, arg);
        assert(word_ok(m.len() as int, w));
        if raw::spec_is_long(w) {
            raw::lemma_long_not_exception(w);
        } else {
            assert((w as int) % 8 == 0);
            assert(w as int % 8 == 0 ==> w & 3 != 2) by (bit_vector);
        }
    }
}

/// The variant hash folded over `s` starting from `acc`: each byte maps the
/// accumulator through `223 * acc + byte`, kept to 31 bits.
pub open spec fn variant_hash_acc(s: Seq<u8>, acc: int) -> int
    decreases s.len(),
{
    if s.len() == 0 {
        acc
    } else {
        variant_hash_acc(s.drop_first(), (223 * acc + s[0]) % 0x8000_0000)
    }
}

/// The variant hash of a name: the 31-bit fold, sign-adjusted into the
/// immediate integer range of the foreign runtime's variant hashing.
pub open spec fn spec_variant_hash(s: Seq<u8>) -> i64 {
    let h = variant_hash_acc(s, 0);
    if h > 0x3FFF_FFFF {
        (h - 0x8000_0000) as i64
    } else {
        h as i64
    }
}

/// Compute the variant hash of a name.
pub fn variant_hash(name: &[u8]) -> (h: i64)
    ensures
        h == spec_variant_hash(name@),
{
    let mut acc: u64 = 0;
    let mut i: usize = 0;
    proof {
        assert(name@.skip(0) =~= name@);
    }
    while i < name.len()
        invariant
            i <= name.len(),
            acc < 0x8000_0000,
            variant_hash_acc(name@, 0) == variant_hash_acc(name@.skip(i as int), acc as int),
        decreases name.len() - i,
    {
        let b = name[i];
        let t: u64 = 223 * acc + (b as u64);
        let next: u64 = t & 0x7FFF_FFFF;
        proof {
            assert(t & 0x7FFF_FFFF == t % 0x8000_0000) by (bit_vector);
            assert(t & 0x7FFF_FFFF < 0x8000_0000) by (bit_vector);
            assert(name@.skip(i as int)[0] == name@[i as int]);
            assert(name@.skip(i as int).drop_first() =~= name@.skip(i as int + 1));
        }
        acc = next;
        i = i + 1;
    }
    proof {
        assert(name@.skip(i as int) =~= Seq::<u8>::empty());
    }
    if acc > 0x3FFF_FFFF {
        (acc as i64) - 0x8000_0000
    } else {
        acc as i64
    }
}

/// The first method bound to hash `h` in a method table laid out as
/// alternating hash and method words.
pub open spec fn method_lookup(tbl: Seq<u64>, h: u64) -> Option<u64>
    decreases tbl.len(),
{
    if tbl.len() < 2 {
        None
    } else if tbl[0] == h {
        Some(tbl[1])
    } else {
        method_lookup(tbl.skip(2), h)
    }
}

impl Value {
    /// Allocate a closure running the identity primitive.
    pub fn closure_identity(rt: &mut Runtime) -> (r: Value)
        requires
            old(rt).wf(),
            old(rt).mem().len() < HEAP_MAX,
        ensures
            final(rt).wf(),
            crate::runtime::mem_extends(final(rt).mem(), old(rt).mem()),
            (final(rt).model() == RuntimeModel { mem: final(rt).model().mem, ..old(rt).model() }),
            is_model_closure(final(rt).mem(), r.0),
            closure_code(final(rt).mem(), r.0) == raw::spec_val_int(CODE_IDENTITY),
            word_points(final(rt).mem().len() as int, r.0),
            block_at(final(rt).mem(), r.0).tag == tag::CLOSURE,
    {
        let code = raw::val_int(CODE_IDENTITY);
        proof {
            assert(raw::spec_val_int(0) == 1 && raw::spec_val_int(1) == 3 && raw::spec_val_int(2)
                == 5) by (bit_vector);
            assert(1u64 & 1 == 1 && 3u64 & 1 == 1 && 5u64 & 1 == 1) by (bit_vector);
        }
        let f: Vec<u64> = vec![code, raw::UNIT];
        proof {
            assert(f@ =~= seq![raw::spec_val_int(CODE_IDENTITY), raw::UNIT]);
            assert(1u64 & 1 == 1) by (bit_vector);
        }
        let b = Block { tag: tag::CLOSURE, data: BlockData::Fields(f) };
        Value(rt.push_block(b))
    }

    /// Allocate a closure running the constant primitive: every call returns
    /// the captured value.
    pub fn closure_constant(rt: &mut Runtime, v: Value) -> (r: Value)
        requires
            old(rt).wf(),
            old(rt).mem().len() < HEAP_MAX,
            word_ok(old(rt).mem().len() as int, v.0),
        ensures
            final(rt).wf(),
            crate::runtime::mem_extends(final(rt).mem(), old(rt).mem()),
            (final(rt).model() == RuntimeModel { mem: final(rt).model().mem, ..old(rt).model() }),
            is_model_closure(final(rt).mem(), r.0),
            closure_code(final(rt).mem(), r.0) == raw::spec_val_int(CODE_CONSTANT),
            closure_payload(final(rt).mem(), r.0) == v.0,
            word_points(final(rt).mem().len() as int, r.0),
            block_at(final(rt).mem(), r.0).tag == tag::CLOSURE,
    {
        let code = raw::val_int(CODE_CONSTANT);
        proof {
            assert(raw::spec_val_int(0) == 1 && raw::spec_val_int(1) == 3 && raw::spec_val_int(2)
                == 5) by (bit_vector);
            assert(1u64 & 1 == 1 && 3u64 & 1 == 1 && 5u64 & 1 == 1) by (bit_vector);
        }
        let f: Vec<u64> = vec![code, v.0];
        proof {
            assert(f@ =~= seq![raw::spec_val_int(CODE_CONSTANT), v.0]);
        }
        let b = Block { tag: tag::CLOSURE, data: BlockData::Fields(f) };
        Value(rt.push_block(b))
    }

    /// Allocate a closure running the raising primitive: every call raises
    /// the captured value, which must be a block.
    pub fn closure_raise(rt: &mut Runtime, exc: Value) -> (r: Value)
        requires
            old(rt).wf(),
            old(rt).mem().len() < HEAP_MAX,
            word_points(old(rt).mem().len() as int, exc.0),
        ensures
            final(rt).wf(),
            crate::runtime::mem_extends(final(rt).mem(), old(rt).mem()),
            (final(rt).model() == RuntimeModel { mem: final(rt).model().mem, ..old(rt).model() }),
            is_model_closure(final(rt).mem(), r.0),
            closure_code(final(rt).mem(), r.0) == raw::spec_val_int(CODE_RAISE),
            closure_payload(final(rt).mem(), r.0) == exc.0,
            word_points(final(rt).mem().len() as int, r.0),
            block_at(final(rt).mem(), r.0).tag == tag::CLOSURE,
    {
        let code = raw::val_int(CODE_RAISE);
        proof {
            assert(raw::spec_val_int(0) == 1 && raw::spec_val_int(1) == 3 && raw::spec_val_int(2)
                == 5) by (bit_vector);
            assert(1u64 & 1 == 1 && 3u64 & 1 == 1 && 5u64 & 1 == 1) by (bit_vector);
        }
        let f: Vec<u64> = vec![code, exc.0];
        proof {
            assert(f@ =~= seq![raw::spec_val_int(CODE_RAISE), exc.0]);
        }
        let b = Block { tag: tag::CLOSURE, data: BlockData::Fields(f) };
        Value(rt.push_block(b))
    }

    /// Run the closure's primitive and hand back the raw result word, as
    /// the foreign call primitive would.
    fn run_closure(self, rt: &Runtime, arg: Value) -> (w: u64)
        requires
            rt.wf(),
            is_model_closure(rt.mem(), self.0),
        ensures
            w == call_result(rt.mem(), self.0, arg.0),
    {
        let code = rt.load_field(self.0, 0);
        if code == raw::val_int(CODE_IDENTITY) {
            arg.0
        } else if code == raw::val_int(CODE_CONSTANT) {
            rt.load_field(self.0, 1)
        } else {
            raw::make_exception_result(rt.load_field(self.0, 1))
        }
    }

    /// Inspect a raw callback result: unwrap a raised value into an
    /// `Exception` error, return a normal result as a value.
    fn classify_result(w: u64) -> (r: Result<Value, Error>)
        ensures
            raw::spec_is_exception_result(w) ==> r == Err::<Value, Error>(
                Error::Exception(Value(raw::spec_extract_exception(w))),
            ),
            !raw::spec_is_exception_result(w) ==> r == Ok::<Value, Error>(Value(w)),
    {
        let v = Value(w);
        if v.is_exception_result() {
            Err(Error::Exception(Value(raw::extract_exception(w))))
        } else {
            Ok(v)
        }
    }

    /// Call a closure with a single argument.  A callee whose tag is not
    /// `CLOSURE` fails with `NotCallable` before invocation; the runtime is
    /// never touched.
    pub fn call(self, rt: &Runtime, arg: Value) -> (r: Result<Value, Error>)
        requires
            rt.wf(),
            word_points(rt.mem().len() as int, self.0),
            word_ok(rt.mem().len() as int, arg.0),
            (block_at(rt.mem(), self.0).tag == tag::CLOSURE ==> is_model_closure(
                rt.mem(),
                self.0,
            )),
        ensures
            block_at(rt.mem(), self.0).tag != tag::CLOSURE ==> r == Err::<Value, Error>(
                Error::NotCallable,
            ),
            block_at(rt.mem(), self.0).tag == tag::CLOSURE ==> r == spec_call(
                rt.mem(),
                self.0,
                arg.0,
            ),
    {
        if self.tag(rt).byte() != tag::CLOSURE {
            return Err(Error::NotCallable);
        }
        let w = self.run_closure(rt, arg);
        Value::classify_result(w)
    }

    /// Call a closure with two arguments; the model's primitives consume
    /// only the first.
    pub fn call2(self, rt: &Runtime, arg1: Value, arg2: Value) -> (r: Result<Value, Error>)
        requires
            rt.wf(),
            word_points(rt.mem().len() as int, self.0),
            word_ok(rt.mem().len() as int, arg1.0),
            word_ok(rt.mem().len() as int, arg2.0),
            (block_at(rt.mem(), self.0).tag == tag::CLOSURE ==> is_model_closure(
                rt.mem(),
                self.0,
            )),
        ensures
            block_at(rt.mem(), self.0).tag != tag::CLOSURE ==> r == Err::<Value, Error>(
                Error::NotCallable,
            ),
            block_at(rt.mem(), self.0).tag == tag::CLOSURE ==> r == spec_call(
                rt.mem(),
                self.0,
                arg1.0,
            ),
    {
        if self.tag(rt).byte() != tag::CLOSURE {
            return Err(Error::NotCallable);
        }
        let _ = arg2;
        let w = self.run_closure(rt, arg1);
        Value::classify_result(w)
    }

    /// Call a closure with three arguments; the model's primitives consume
    /// only the first.
    pub fn call3(self, rt: &Runtime, arg1: Value, arg2: Value, arg3: Value) -> (r: Result<
        Value,
        Error,
    >)
        requires
            rt.wf(),
            word_points(rt.mem().len() as int, self.0),
            word_ok(rt.mem().len() as int, arg1.0),
            word_ok(rt.mem().len() as int, arg2.0),
            word_ok(rt.mem().len() as int, arg3.0),
            (block_at(rt.mem(), self.0).tag == tag::CLOSURE ==> is_model_closure(
                rt.mem(),
                self.0,
            )),
        ensures
            block_at(rt.mem(), self.0).tag != tag::CLOSURE ==> r == Err::<Value, Error>(
                Error::NotCallable,
            ),
            block_at(rt.mem(), self.0).tag == tag::CLOSURE ==> r == spec_call(
                rt.mem(),
                self.0,
                arg1.0,
            ),
    {
        if self.tag(rt).byte() != tag::CLOSURE {
            return Err(Error::NotCallable);
        }
        let _ = arg2;
        let _ = arg3;
        let w = self.run_closure(rt, arg1);
        Value::classify_result(w)
    }

    /// Call a closure with an argument array; the model's primitives consume
    /// only the first element.
    pub fn call_n(self, rt: &Runtime, args: &Vec<Value>) -> (r: Result<Value, Error>)
        requires
            rt.wf(),
            word_points(rt.mem().len() as int, self.0),
            args@.len() >= 1,
            forall|i: int| 0 <= i < args@.len() ==> word_ok(
                rt.mem().len() as int,
                (#[trigger] args@[i]).0,
            ),
            (block_at(rt.mem(), self.0).tag == tag::CLOSURE ==> is_model_closure(
                rt.mem(),
                self.0,
            )),
        ensures
            block_at(rt.mem(), self.0).tag != tag::CLOSURE ==> r == Err::<Value, Error>(
                Error::NotCallable,
            ),
            block_at(rt.mem(), self.0).tag == tag::CLOSURE ==> r == spec_call(
                rt.mem(),
                self.0,
                args@[0].0,
            ),
    {
        if self.tag(rt).byte() != tag::CLOSURE {
            return Err(Error::NotCallable);
        }
        let w = self.run_closure(rt, args[0]);
        Value::classify_result(w)
    }

    /// The variant hash of `name` as a value: the bare hash immediate, or,
    /// with a payload, a fresh two-field block tagged 0 holding the hash and
    /// the payload.
    pub fn hash_variant(rt: &mut Runtime, name: &[u8], a: Option<Value>) -> (r: Value)
        requires
            old(rt).wf(),
            old(rt).mem().len() < HEAP_MAX,
            (a matches Some(x) ==> word_ok(old(rt).mem().len() as int, x.0)),
        ensures
            final(rt).wf(),
            crate::runtime::mem_extends(final(rt).mem(), old(rt).mem()),
            (final(rt).model() == RuntimeModel { mem: final(rt).model().mem, ..old(rt).model() }),
            (a is None ==> final(rt).model() == old(rt).model() && r.0 == raw::spec_val_int(
                spec_variant_hash(name@),
            )),
            (a matches Some(x) ==> final(rt).model() == RuntimeModel {
                mem: old(rt).mem().push(
                    BlockModel {
                        tag: 0,
                        body: BodyModel::Fields(
                            seq![raw::spec_val_int(spec_variant_hash(name@)), x.0],
                        ),
                    },
                ),
                ..old(rt).model()
            } && r.0 == spec_addr(old(rt).mem().len() as int)),
    {
        let h = variant_hash(name);
        let hv = raw::val_int(h);
        proof {
            raw::lemma_val_int_is_long(h);
        }
        match a {
            None => Value(hv),
            Some(x) => {
                let f: Vec<u64> = vec![hv, x.0];
                proof {
                    assert(f@ =~= seq![raw::spec_val_int(spec_variant_hash(name@)), x.0]);
                }
                let b = Block { tag: 0, data: BlockData::Fields(f) };
                Value(rt.push_block(b))
            },
        }
    }

    /// Look up a public method on an object by name: the object's first
    /// field is its method table, alternating hash and method words; the
    /// first entry whose hash matches the name's variant hash wins.  A
    /// non-object has no methods.
    pub fn method(self, rt: &Runtime, name: &[u8]) -> (r: Option<Value>)
        requires
            rt.wf(),
            word_points(rt.mem().len() as int, self.0),
            (block_at(rt.mem(), self.0).tag == tag::OBJECT ==> block_fields(
                block_at(rt.mem(), self.0),
            ).len() >= 1 && (block_at(rt.mem(), self.0).body is Fields) && word_points(
                rt.mem().len() as int,
                block_fields(block_at(rt.mem(), self.0))[0],
            ) && (block_at(rt.mem(), block_fields(block_at(rt.mem(), self.0))[0]).body is Fields)),
        ensures
            block_at(rt.mem(), self.0).tag != tag::OBJECT ==> r is None,
            block_at(rt.mem(), self.0).tag == tag::OBJECT ==> (match method_lookup(
                block_fields(block_at(rt.mem(), block_fields(block_at(rt.mem(), self.0))[0])),
                raw::spec_val_int(spec_variant_hash(name@)),
            ) {
                None => r is None,
                Some(w) => r == Some(Value(w)),
            }),
    {
        if self.tag(rt).byte() != tag::OBJECT {
            return None;
        }
        let h = variant_hash(name);
        let hv = raw::val_int(h);
        let mt = rt.load_field(self.0, 0);
        let ghost tbl = block_fields(block_at(rt.mem(), mt));
        let n = rt.field_count(mt);
        let mut i: usize = 0;
        proof {
            assert(tbl.skip(0) =~= tbl);
        }
        while n - i > 1
            invariant
                rt.wf(),
                word_points(rt.mem().len() as int, mt),
                (block_at(rt.mem(), mt).body is Fields),
                block_at(rt.mem(), self.0).tag == tag::OBJECT,
                mt == block_fields(block_at(rt.mem(), self.0))[0],
                hv == raw::spec_val_int(spec_variant_hash(name@)),
                tbl == block_fields(block_at(rt.mem(), mt)),
                n == tbl.len(),
                i <= n,
                method_lookup(tbl, hv) == method_lookup(tbl.skip(i as int), hv),
            decreases n - i,
        {
            let cand = rt.load_field(mt, i);
            proof {
                assert(tbl.skip(i as int)[0] == tbl[i as int]);
                assert(tbl.skip(i as int)[1] == tbl[i as int + 1]);
                assert(tbl.skip(i as int).skip(2) =~= tbl.skip(i as int + 2));
            }
            if cand == hv {
                let m = rt.load_field(mt, i + 1);
                return Some(Value(m));
            }
            i = i + 2;
        }
        proof {
            assert(tbl.skip(i as int).len() < 2);
        }
        None
    }
}

} // verus!
