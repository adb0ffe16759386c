//! Round trips through the conversion layer, and the concrete encoding
//! scenario for a mixed triple.

use ocaml::conv::{
    bytes_from_value, list_from_value, list_to_value, map_from_value, map_to_value,
    option_from_value, option_to_value, tuple_from_value, tuple_to_value,
};
use ocaml::raw;
use ocaml::runtime::Runtime;
use ocaml::tag;
use ocaml::value::{FromValue, ToValue, Value};

#[test]
fn int_round_trip_boundaries() {
    let cases: Vec<i64> = vec![0, 1, -1, 42, -42, raw::MIN_INT, raw::MAX_INT];
    for i in cases {
        assert_eq!(Value::of_int(i).int_val(), i);
    }
}

#[test]
fn int_immediate_for_one_is_three() {
    assert_eq!(Value::of_int(1).0, 3);
    assert!(Value::of_int(1).is_long());
    assert!(!Value::of_int(1).is_block());
}

#[test]
fn uint_round_trip() {
    assert_eq!(Value::uint(7).int_val(), 7);
    assert_eq!(Value::uint(0).int_val(), 0);
}

#[test]
fn bool_round_trip() {
    assert_eq!(Value::bool(true).0, raw::TRUE);
    assert_eq!(Value::bool(false).0, raw::FALSE);
    assert!(Value::bool(true).int_val() != 0);
    assert!(Value::bool(false).int_val() == 0);
}

#[test]
fn int64_round_trip_boundaries() {
    let mut rt = Runtime::new();
    for i in [0i64, 1, -1, i64::MIN, i64::MAX] {
        let v = Value::int64(&mut rt, i);
        assert_eq!(v.int64_val(&rt), i);
    }
}

#[test]
fn int32_round_trip_boundaries() {
    let mut rt = Runtime::new();
    for i in [0i32, 1, -1, i32::MIN, i32::MAX] {
        let v = Value::int32(&mut rt, i);
        assert_eq!(v.int32_val(&rt), i);
    }
}

#[test]
fn nativeint_round_trip() {
    let mut rt = Runtime::new();
    for i in [0i64, -5, i64::MAX] {
        let v = Value::nativeint(&mut rt, i);
        assert_eq!(v.nativeint_val(&rt), i);
    }
}

#[test]
fn unsigned_trait_round_trips() {
    let mut rt = Runtime::new();
    let v = u64::MAX.to_value(&mut rt);
    assert_eq!(u64::from_value(&rt, v), u64::MAX);
    let w = u32::MAX.to_value(&mut rt);
    assert_eq!(u32::from_value(&rt, w), u32::MAX);
    let b = true.to_value(&mut rt);
    assert!(bool::from_value(&rt, b));
}

#[test]
fn string_round_trip() {
    let mut rt = Runtime::new();
    let v = Value::string(&mut rt, b"hello");
    assert_eq!(bytes_from_value(&rt, v), b"hello".to_vec());
    let e = Value::string(&mut rt, b"");
    assert_eq!(bytes_from_value(&rt, e), Vec::<u8>::new());
    assert_eq!(v.tag(&rt).0, tag::STRING);
}

#[test]
fn string_zero_copy_view() {
    let mut rt = Runtime::new();
    let v = Value::string(&mut rt, b"view");
    assert_eq!(rt.bytes_view(v.0), b"view");
}

#[test]
fn option_round_trip() {
    let mut rt = Runtime::new();
    let n = option_to_value(&mut rt, None);
    assert!(option_from_value(&rt, n).is_none());
    assert_eq!(n, Value::none());

    let s = option_to_value(&mut rt, Some(Value::of_int(9)));
    assert_eq!(option_from_value(&rt, s), Some(Value::of_int(9)));
}

#[test]
fn option_of_option_round_trip() {
    let mut rt = Runtime::new();
    let inner = option_to_value(&mut rt, None);
    let outer = option_to_value(&mut rt, Some(inner));
    let back = option_from_value(&rt, outer).expect("outer must be present");
    assert!(option_from_value(&rt, back).is_none());

    let inner2 = option_to_value(&mut rt, Some(Value::of_int(3)));
    let outer2 = option_to_value(&mut rt, Some(inner2));
    let back2 = option_from_value(&rt, outer2).expect("outer must be present");
    assert_eq!(option_from_value(&rt, back2), Some(Value::of_int(3)));
}

#[test]
fn tuple_round_trip() {
    let mut rt = Runtime::new();
    let elems = vec![Value::of_int(1), Value::of_int(2), Value::of_int(3)];
    let v = tuple_to_value(&mut rt, &elems);
    assert_eq!(v.tag(&rt).0, 0);
    assert_eq!(tuple_from_value(&rt, v), elems);

    let empty: Vec<Value> = Vec::new();
    let ev = tuple_to_value(&mut rt, &empty);
    assert_eq!(tuple_from_value(&rt, ev), empty);
}

#[test]
fn list_round_trip_keeps_order() {
    let mut rt = Runtime::new();
    let elems = vec![Value::of_int(10), Value::of_int(20), Value::of_int(30)];
    let v = list_to_value(&mut rt, &elems);
    assert_eq!(list_from_value(&rt, v), elems);

    let empty: Vec<Value> = Vec::new();
    let ev = list_to_value(&mut rt, &empty);
    assert_eq!(ev.0, raw::EMPTY_LIST);
    assert_eq!(list_from_value(&rt, ev), empty);
}

#[test]
fn map_round_trip_keeps_insertion_order() {
    let mut rt = Runtime::new();
    let pairs = vec![
        (Value::of_int(1), Value::of_int(100)),
        (Value::of_int(2), Value::of_int(200)),
    ];
    let v = map_to_value(&mut rt, &pairs);
    assert_eq!(map_from_value(&rt, v), pairs);

    let empty: Vec<(Value, Value)> = Vec::new();
    let ev = map_to_value(&mut rt, &empty);
    assert_eq!(map_from_value(&rt, ev), empty);
}

#[test]
fn triple_scenario() {
    // Encoding (1, "ab", absent 64-bit integer) yields a 3-field block
    // tagged 0: the immediate for 1, a 2-byte text block, the none sentinel.
    let mut rt = Runtime::new();
    let s = Value::string(&mut rt, b"ab");
    let absent = option_to_value(&mut rt, None);
    let elems = vec![Value::of_int(1), s, absent];
    let v = tuple_to_value(&mut rt, &elems);

    assert!(v.is_block());
    assert_eq!(v.tag(&rt).0, 0);
    assert_eq!(v.array_length(&rt), 3);

    let f0 = v.field(&rt, 0);
    assert!(f0.is_long());
    assert_eq!(f0.0, 3);
    assert_eq!(f0.int_val(), 1);

    let f1 = v.field(&rt, 1);
    assert_eq!(f1.tag(&rt).0, tag::STRING);
    assert_eq!(bytes_from_value(&rt, f1), b"ab".to_vec());

    let f2 = v.field(&rt, 2);
    assert_eq!(f2, Value::none());
    assert!(option_from_value(&rt, f2).is_none());

    // Decoding reproduces the original triple exactly.
    let back = tuple_from_value(&rt, v);
    assert_eq!(back.len(), 3);
    assert_eq!(back[0].int_val(), 1);
    assert_eq!(bytes_from_value(&rt, back[1]), b"ab".to_vec());
    assert!(option_from_value(&rt, back[2]).is_none());
}

#[test]
fn exception_result_bits() {
    assert!(!raw::is_exception_result(raw::val_int(0)));
    assert!(!raw::is_exception_result(raw::val_int(-1)));
    let addr = 8u64;
    let marked = raw::make_exception_result(addr);
    assert!(raw::is_exception_result(marked));
    assert_eq!(raw::extract_exception(marked), addr);
}

#[test]
fn wosize_counts_header_words() {
    let mut rt = Runtime::new();
    let t = tuple_to_value(&mut rt, &vec![Value::of_int(1), Value::of_int(2)]);
    assert_eq!(rt.wosize_val(t.0), 2);
    let s = Value::string(&mut rt, b"ab");
    assert_eq!(rt.wosize_val(s.0), 1);
    let s8 = Value::string(&mut rt, b"eightwide");
    assert_eq!(rt.wosize_val(s8.0), 2);
}

#[test]
fn raw_word_discriminator() {
    assert!(raw::is_long(raw::UNIT));
    assert!(raw::is_long(raw::TRUE));
    assert!(!raw::is_block(raw::val_int(5)));
    assert_eq!(raw::int_val(raw::val_int(-7)), -7);
}
