//! The frame protocol, the call protocol, deep cloning and the process-wide
//! registries.

use ocaml::call::variant_hash;
use ocaml::frame::Frame;
use ocaml::handler::init_panic_handler;
use ocaml::raw;
use ocaml::runtime::Runtime;
use ocaml::tag;
use ocaml::tag::Tag;
use ocaml::value::Value;
use ocaml::Error;

#[test]
fn frame_nesting_restores_head() {
    let mut rt = Runtime::new();
    let head0 = rt.tables.len();

    let mut f1 = Frame::new(&rt);
    f1.local(&mut rt);
    f1.local(&mut rt);
    let head1 = rt.tables.len();

    let mut f2 = Frame::new(&rt);
    f2.local(&mut rt);
    let mut f3 = Frame::new(&rt);
    f3.local(&mut rt);
    f3.local(&mut rt);

    // Strict LIFO teardown restores each saved head exactly.
    f3.end(&mut rt);
    f2.end(&mut rt);
    assert_eq!(rt.tables.len(), head1);
    f1.end(&mut rt);
    assert_eq!(rt.tables.len(), head0);
    assert_eq!(rt.tables.len(), 0);
}

fn rotation_links(n: usize) -> usize {
    let mut rt = Runtime::new();
    let mut f = Frame::new(&rt);
    let base = rt.tables.len();
    for _ in 0..n {
        let v = f.local(&mut rt);
        assert_eq!(v.0, raw::UNIT);
    }
    let links = rt.tables.len() - base;

    // Every registered slot stays reachable from the root list.
    let mut seen = vec![false; rt.slots.len()];
    for t in &rt.tables {
        for &slot in &t.entries {
            seen[slot] = true;
        }
    }
    assert!(seen.iter().all(|&s| s));

    f.end(&mut rt);
    links
}

#[test]
fn frame_rotation_links_are_ceil_n_over_5() {
    assert_eq!(rotation_links(0), 0);
    assert_eq!(rotation_links(1), 1);
    assert_eq!(rotation_links(5), 1);
    assert_eq!(rotation_links(6), 2);
    assert_eq!(rotation_links(11), 3);
}

#[test]
fn local_value_roots_a_copy() {
    let mut rt = Runtime::new();
    let mut f = Frame::new(&rt);
    let v = Value::of_int(77);
    let r = f.local_value(&mut rt, v);
    assert_eq!(r, v);
    assert_eq!(*rt.slots.last().unwrap(), v.0);
    f.end(&mut rt);
}

#[test]
fn call_non_closure_is_not_callable_without_side_effects() {
    let mut rt = Runtime::new();
    let v = Value::alloc_tuple(&mut rt, 1);
    let heap_before = rt.heap.len();
    let r = v.call(&rt, Value::of_int(1));
    assert_eq!(r, Err(Error::NotCallable));
    assert_eq!(rt.heap.len(), heap_before);
}

#[test]
fn call_raising_closure_returns_exception() {
    let mut rt = Runtime::new();
    let exc = Value::string(&mut rt, b"failure");
    let f = Value::closure_raise(&mut rt, exc);
    let r = f.call(&rt, Value::of_int(0));
    assert_eq!(r, Err(Error::Exception(exc)));
}

#[test]
fn call_normal_closure_returns_value() {
    let mut rt = Runtime::new();
    let ident = Value::closure_identity(&mut rt);
    assert_eq!(ident.tag(&rt).0, tag::CLOSURE);
    let r = ident.call(&rt, Value::of_int(21));
    assert_eq!(r.unwrap().int_val(), 21);

    let konst = Value::closure_constant(&mut rt, Value::of_int(5));
    assert_eq!(konst.call(&rt, Value::of_int(0)).unwrap().int_val(), 5);
    assert_eq!(
        konst
            .call2(&rt, Value::of_int(0), Value::of_int(1))
            .unwrap()
            .int_val(),
        5
    );
    assert_eq!(
        konst
            .call3(&rt, Value::of_int(0), Value::of_int(1), Value::of_int(2))
            .unwrap()
            .int_val(),
        5
    );
    let args = vec![Value::of_int(4), Value::of_int(9)];
    assert_eq!(ident.call_n(&rt, &args).unwrap().int_val(), 4);
}

#[test]
fn deep_clone_immediate_is_itself() {
    let mut rt = Runtime::new();
    let v = Value::of_int(12);
    assert_eq!(v.deep_clone_to_ocaml(&mut rt), v);
}

#[test]
fn deep_clone_copies_opaque_blocks() {
    let mut rt = Runtime::new();
    let s = Value::string(&mut rt, b"xyz");
    let c = s.deep_clone_to_ocaml(&mut rt);
    assert_ne!(c.0, s.0);
    assert_eq!(c.tag(&rt).0, tag::STRING);
    assert_eq!(
        ocaml::conv::bytes_from_value(&rt, c),
        ocaml::conv::bytes_from_value(&rt, s)
    );
}

#[test]
fn deep_clone_recurses_per_field() {
    let mut rt = Runtime::new();
    let s = Value::string(&mut rt, b"in");
    let elems = vec![Value::of_int(1), s];
    let t = ocaml::conv::tuple_to_value(&mut rt, &elems);
    let c = t.deep_clone_to_rust(&mut rt);
    assert_ne!(c.0, t.0);
    assert_eq!(c.tag(&rt).0, 0);
    let cf = ocaml::conv::tuple_from_value(&rt, c);
    assert_eq!(cf.len(), 2);
    assert_eq!(cf[0].int_val(), 1);
    // The text block was cloned, not shared.
    assert_ne!(cf[1].0, s.0);
    assert_eq!(ocaml::conv::bytes_from_value(&rt, cf[1]), b"in".to_vec());
}

#[test]
fn deep_clone_twice_is_structurally_equal_and_pointer_distinct() {
    let mut rt = Runtime::new();
    let s = Value::string(&mut rt, b"leaf");
    let inner = ocaml::conv::tuple_to_value(&mut rt, &vec![s, Value::of_int(8)]);
    let outer = ocaml::conv::tuple_to_value(&mut rt, &vec![inner, Value::of_int(9)]);

    let c1 = outer.deep_clone_to_ocaml(&mut rt);
    let c2 = outer.deep_clone_to_ocaml(&mut rt);
    assert_ne!(c1.0, c2.0);

    let f1 = ocaml::conv::tuple_from_value(&rt, c1);
    let f2 = ocaml::conv::tuple_from_value(&rt, c2);
    assert_eq!(f1.len(), 2);
    assert_eq!(f2.len(), 2);
    assert_ne!(f1[0].0, f2[0].0);
    assert_eq!(f1[1].int_val(), 9);
    assert_eq!(f2[1].int_val(), 9);
    let i1 = ocaml::conv::tuple_from_value(&rt, f1[0]);
    let i2 = ocaml::conv::tuple_from_value(&rt, f2[0]);
    assert_eq!(
        ocaml::conv::bytes_from_value(&rt, i1[0]),
        b"leaf".to_vec()
    );
    assert_eq!(
        ocaml::conv::bytes_from_value(&rt, i2[0]),
        b"leaf".to_vec()
    );
    assert_eq!(i1[1].int_val(), 8);
    assert_eq!(i2[1].int_val(), 8);
}

#[test]
fn deep_clone_terminates_on_cycles() {
    let mut rt = Runtime::new();
    let cell = Value::alloc_tuple(&mut rt, 1);
    // Tie the knot: the block's only field points back at the block itself.
    cell.store_field(&mut rt, 0, cell);
    let c = cell.deep_clone_to_ocaml(&mut rt);
    assert_ne!(c.0, cell.0);
    // The clone is its own cycle, not a pointer into the source cycle.
    assert_eq!(c.field(&rt, 0), c);
}

#[test]
fn named_registry_lookup() {
    let mut rt = Runtime::new();
    assert!(Value::named(&rt, b"missing").is_none());
    rt.bind_named(b"the_answer", Value::of_int(42));
    let v = Value::named(&rt, b"the_answer").expect("bound name must resolve");
    assert_eq!(v.int_val(), 42);
    assert!(Value::named(&rt, b"missing").is_none());
}

#[test]
fn variant_hash_exact_values() {
    assert_eq!(variant_hash(b""), 0);
    assert_eq!(variant_hash(b"A"), 65);
    // Two bytes fold left: 223 * 65 + 66.
    assert_eq!(variant_hash(b"AB"), 223 * 65 + 66);
}

#[test]
fn hash_variant_values() {
    let mut rt = Runtime::new();
    let bare = Value::hash_variant(&mut rt, b"A", None);
    assert_eq!(bare.int_val(), 65);

    let tagged = Value::hash_variant(&mut rt, b"A", Some(Value::of_int(7)));
    assert_eq!(tagged.tag(&rt).0, 0);
    assert_eq!(tagged.field(&rt, 0).int_val(), 65);
    assert_eq!(tagged.field(&rt, 1).int_val(), 7);
}

#[test]
fn method_lookup_on_objects() {
    let mut rt = Runtime::new();
    let meth = Value::closure_identity(&mut rt);
    let h = Value::hash_variant(&mut rt, b"run", None);
    let table = ocaml::conv::tuple_to_value(&mut rt, &vec![h, meth]);
    let obj = Value::alloc_block(&mut rt, 1, Tag(tag::OBJECT));
    obj.store_field(&mut rt, 0, table);

    assert_eq!(obj.method(&rt, b"run"), Some(meth));
    assert!(obj.method(&rt, b"walk").is_none());

    let not_obj = Value::alloc_tuple(&mut rt, 0);
    assert!(not_obj.method(&rt, b"run").is_none());
}

#[test]
fn global_roots_register_and_remove() {
    let mut rt = Runtime::new();
    let a = Value::string(&mut rt, b"a");
    let b = Value::string(&mut rt, b"b");
    a.register_global_root(&mut rt);
    b.register_global_root(&mut rt);
    a.register_global_root(&mut rt);
    assert_eq!(rt.globals, vec![a.0, b.0, a.0]);

    // Removal takes out the first registration only.
    a.remove_global_root(&mut rt);
    assert_eq!(rt.globals, vec![b.0, a.0]);

    // Removing an unregistered value changes nothing.
    let c = Value::of_int(5);
    c.remove_global_root(&mut rt);
    assert_eq!(rt.globals, vec![b.0, a.0]);
}

#[test]
fn modify_and_initialize_overwrite_in_place() {
    let mut v = Value::unit();
    v.modify(Value::of_int(4));
    assert_eq!(v.int_val(), 4);
    v.initialize(Value::of_int(6));
    assert_eq!(v.int_val(), 6);
}

#[test]
fn panic_handler_installation_is_idempotent() {
    let mut rt = Runtime::new();
    assert!(!rt.handler_installed());
    init_panic_handler(&mut rt);
    assert!(rt.handler_installed());
    let heap = rt.heap.len();
    init_panic_handler(&mut rt);
    assert!(rt.handler_installed());
    assert_eq!(rt.heap.len(), heap);
}

#[test]
fn variant_and_result_constructors() {
    let mut rt = Runtime::new();
    let ok = Value::result_ok(&mut rt, Value::of_int(1));
    assert_eq!(ok.tag(&rt).0, 0);
    assert_eq!(ok.field(&rt, 0).int_val(), 1);

    let err = Value::result_error(&mut rt, Value::of_int(2));
    assert_eq!(err.tag(&rt).0, 1);
    assert_eq!(err.field(&rt, 0).int_val(), 2);

    let bare = Value::variant(&mut rt, 3, None);
    assert_eq!(bare.tag(&rt).0, 3);
    assert_eq!(bare.array_length(&rt), 0);
}

#[test]
fn alloc_final_is_a_zeroed_custom_block() {
    let mut rt = Runtime::new();
    let v = Value::alloc_final(&mut rt, 2);
    assert_eq!(v.tag(&rt).0, tag::CUSTOM);
    assert_eq!(v.array_length(&rt), 3);
    assert_eq!(v.field(&rt, 1).0, 0);
}

#[test]
fn abstract_handles_and_exceptions() {
    let mut rt = Runtime::new();
    let a = Value::alloc_abstract_ptr(&mut rt, 0xDEAD);
    assert_eq!(a.tag(&rt).0, tag::ABSTRACT);
    assert_eq!(a.abstract_ptr_val(&rt), 0xDEAD);

    let exc = Value::string(&mut rt, b"oops");
    let marked = Value::new(raw::make_exception_result(exc.0));
    assert!(marked.is_exception_result());
    assert_eq!(marked.exception(), Some(exc));
    assert!(Value::of_int(3).exception().is_none());
}

#[test]
fn tag_classification() {
    let mut rt = Runtime::new();
    assert_eq!(Value::alloc_tuple(&mut rt, 2).tag(&rt), Tag(0));
    assert_eq!(Value::string(&mut rt, b"t").tag(&rt), Tag(tag::STRING));
    assert!(Tag(tag::STRING).is_no_scan());
    assert!(Tag(tag::CUSTOM).is_no_scan());
    assert!(!Tag(tag::CLOSURE).is_no_scan());
    assert_eq!(Tag(tag::ABSTRACT).byte(), tag::NO_SCAN);
}
