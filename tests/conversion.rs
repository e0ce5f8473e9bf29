use convex_py::client::{convert_args, prepare_call, CallError, CallKind};
use convex_py::order::key_less;
use convex_py::value::{from_wire, to_wire, ConversionError, HostValue, TaggedValue};

fn hs(x: &str) -> HostValue {
    HostValue::Str(x.to_string())
}

fn ts(x: &str) -> TaggedValue {
    TaggedValue::String(x.to_string())
}

fn nested_wire() -> TaggedValue {
    TaggedValue::Object(vec![
        ("a".to_string(), TaggedValue::Int64(-7)),
        ("b".to_string(), TaggedValue::Array(vec![
            TaggedValue::Null,
            TaggedValue::Boolean(true),
            TaggedValue::Float64(1.5f64.to_bits()),
            TaggedValue::Bytes(vec![0, 255, 3]),
        ])),
        ("c".to_string(), TaggedValue::Object(vec![("x".to_string(), ts("y"))])),
    ])
}

#[test]
fn wire_to_host_and_back() {
    let w = nested_wire();
    let h = from_wire(&w);
    assert_eq!(to_wire(&h), Ok(nested_wire()));
}

#[test]
fn from_wire_shapes() {
    let h = from_wire(&nested_wire());
    let expected = HostValue::Dict(vec![
        (hs("a"), HostValue::Int(-7)),
        (hs("b"), HostValue::List(vec![
            HostValue::Nothing,
            HostValue::Bool(true),
            HostValue::Float(1.5f64.to_bits()),
            HostValue::Bytes(vec![0, 255, 3]),
        ])),
        (hs("c"), HostValue::Dict(vec![(hs("x"), hs("y"))])),
    ]);
    assert_eq!(h, expected);
}

#[test]
fn host_to_wire_and_back() {
    let h = HostValue::List(vec![
        HostValue::Int(i64::MAX as i128),
        HostValue::Int(i64::MIN as i128),
        HostValue::Float((-0.25f64).to_bits()),
        HostValue::Dict(vec![(hs("k"), hs("v")), (hs("l"), HostValue::Bytes(vec![]))]),
    ]);
    let w = to_wire(&h).unwrap();
    let back = from_wire(&w);
    assert_eq!(back, h);
}

#[test]
fn float_bits_are_kept_exactly() {
    let f = 0.1f64 + 0.2f64;
    let w = to_wire(&HostValue::Float(f.to_bits())).unwrap();
    assert_eq!(w, TaggedValue::Float64(f.to_bits()));
    match from_wire(&w) {
        HostValue::Float(bits) => assert_eq!(f64::from_bits(bits), f),
        other => panic!("unexpected {:?}", other),
    }
}

#[test]
fn keys_sorted_whatever_the_insertion_order() {
    let d1 = HostValue::Dict(vec![(hs("b"), HostValue::Int(1)), (hs("a"), HostValue::Int(2)), (hs("c"), HostValue::Nothing)]);
    let d2 = HostValue::Dict(vec![(hs("c"), HostValue::Nothing), (hs("a"), HostValue::Int(2)), (hs("b"), HostValue::Int(1))]);
    let w1 = to_wire(&d1).unwrap();
    let w2 = to_wire(&d2).unwrap();
    assert_eq!(w1, w2);
    assert_eq!(w1, TaggedValue::Object(vec![
        ("a".to_string(), TaggedValue::Int64(2)),
        ("b".to_string(), TaggedValue::Int64(1)),
        ("c".to_string(), TaggedValue::Null),
    ]));
}

#[test]
fn nested_keys_sorted() {
    let d = HostValue::List(vec![HostValue::Dict(vec![(hs("zz"), HostValue::Bool(false)), (hs("z"), HostValue::Bool(true))])]);
    assert_eq!(to_wire(&d).unwrap(), TaggedValue::Array(vec![TaggedValue::Object(vec![
        ("z".to_string(), TaggedValue::Boolean(true)),
        ("zz".to_string(), TaggedValue::Boolean(false)),
    ])]));
}

#[test]
fn key_order_is_by_code_point() {
    assert!(key_less(&"a".to_string(), &"ab".to_string()));
    assert!(!key_less(&"ab".to_string(), &"a".to_string()));
    assert!(key_less(&"Z".to_string(), &"a".to_string()));
    assert!(key_less(&"z".to_string(), &"é".to_string()));
    assert!(!key_less(&"same".to_string(), &"same".to_string()));
    assert!(key_less(&"".to_string(), &"a".to_string()));
}

#[test]
fn later_duplicate_key_wins() {
    let d = HostValue::Dict(vec![(hs("k"), HostValue::Int(1)), (hs("k"), HostValue::Int(2))]);
    assert_eq!(to_wire(&d).unwrap(), TaggedValue::Object(vec![("k".to_string(), TaggedValue::Int64(2))]));
}

#[test]
fn non_string_keys_are_dropped() {
    let d = HostValue::Dict(vec![
        (HostValue::Int(3), HostValue::Int(4)),
        (hs("x"), HostValue::Int(5)),
        (HostValue::Nothing, HostValue::Unsupported),
    ]);
    assert_eq!(to_wire(&d).unwrap(), TaggedValue::Object(vec![("x".to_string(), TaggedValue::Int64(5))]));
}

#[test]
fn unsupported_type_rejected() {
    assert_eq!(to_wire(&HostValue::Unsupported), Err(ConversionError::UnsupportedType));
    let d = HostValue::Dict(vec![(hs("ok"), HostValue::Int(1)), (hs("bad"), HostValue::Unsupported)]);
    assert_eq!(to_wire(&d), Err(ConversionError::UnsupportedType));
    let nested = HostValue::List(vec![HostValue::Int(0), HostValue::List(vec![HostValue::Unsupported])]);
    assert_eq!(to_wire(&nested), Err(ConversionError::UnsupportedType));
}

#[test]
fn unsupported_argument_fails_before_any_call() {
    let mut remote_calls: u32 = 0;
    let args = vec![(hs("n"), HostValue::Int(1)), (hs("obj"), HostValue::Unsupported)];
    match prepare_call(CallKind::Mutation, "tasks:add".to_string(), Some(args)) {
        Ok(_) => remote_calls += 1,
        Err(e) => assert_eq!(e, CallError::Conversion(ConversionError::UnsupportedType)),
    }
    assert_eq!(remote_calls, 0);
}

#[test]
fn integer_range_is_signed_64_bit() {
    assert_eq!(to_wire(&HostValue::Int(i64::MAX as i128)), Ok(TaggedValue::Int64(i64::MAX)));
    assert_eq!(to_wire(&HostValue::Int(i64::MIN as i128)), Ok(TaggedValue::Int64(i64::MIN)));
    assert_eq!(to_wire(&HostValue::Int(i64::MAX as i128 + 1)), Err(ConversionError::IntegerOverflow));
    assert_eq!(to_wire(&HostValue::Int(i64::MIN as i128 - 1)), Err(ConversionError::IntegerOverflow));
}

#[test]
fn first_failure_in_order_is_reported() {
    let d = HostValue::List(vec![HostValue::Int(i128::MAX), HostValue::Unsupported]);
    assert_eq!(to_wire(&d), Err(ConversionError::IntegerOverflow));
}

#[test]
fn absent_arguments_are_empty() {
    assert_eq!(convert_args(None), Ok(vec![]));
    assert_eq!(convert_args(Some(vec![])), Ok(vec![]));
}

#[test]
fn prepared_call_carries_sorted_arguments() {
    let req = prepare_call(
        CallKind::Query,
        "messages:list".to_string(),
        Some(vec![(hs("limit"), HostValue::Int(10)), (hs("channel"), hs("general"))]),
    )
    .unwrap();
    assert_eq!(req.kind, CallKind::Query);
    assert_eq!(req.name, "messages:list");
    assert_eq!(req.args, vec![
        ("channel".to_string(), ts("general")),
        ("limit".to_string(), TaggedValue::Int64(10)),
    ]);
}
