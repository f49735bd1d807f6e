use valuetree::de::{from_value, Deserializer, Event, OptionEvent};
use valuetree::error::Error;
use valuetree::iter::{ByteStream, LineColIterator};
use valuetree::ser::{to_value, Serializer};
use valuetree::value::{cmp_keys, KeyOrder, Value};

fn sample_tree() -> Value {
    Value::Object(vec![
        ("alpha".to_string(), Value::Array(vec![
            Value::I64(-3),
            Value::Bool(true),
            Value::Null,
            Value::F64(1.5f64.to_bits()),
        ])),
        ("beta".to_string(), Value::String("hello".to_string())),
        ("gamma".to_string(), Value::Object(vec![
            ("a".to_string(), Value::I64(1)),
            ("b".to_string(), Value::I64(2)),
        ])),
    ])
}

#[test]
fn round_trip_reproduces_value() {
    let v = sample_tree();
    let built = to_value(&v).unwrap();
    assert_eq!(built, sample_tree());
    let back: Value = from_value(built).unwrap();
    assert_eq!(back, sample_tree());
}

#[test]
fn round_trip_scalars() {
    for v in [
        Value::Null,
        Value::Bool(false),
        Value::I64(i64::MIN),
        Value::F64(f64::NAN.to_bits()),
        Value::String(String::new()),
        Value::Array(vec![]),
        Value::Object(vec![]),
    ] {
        let built = to_value(&v).unwrap();
        let back: Value = from_value(built).unwrap();
        assert_eq!(back, to_value(&v).unwrap());
    }
}

#[test]
fn duplicate_keys_last_write_wins() {
    let mut ser = Serializer::new();
    ser.visit_map(None).unwrap();
    ser.visit_str("a").unwrap();
    ser.visit_i64(1).unwrap();
    ser.map_elt_done().unwrap();
    ser.visit_str("a").unwrap();
    ser.visit_i64(2).unwrap();
    ser.map_elt_done().unwrap();
    ser.end_map().unwrap();
    let v = ser.unwrap().unwrap();
    assert_eq!(v, Value::Object(vec![("a".to_string(), Value::I64(2))]));
}

#[test]
fn object_iteration_is_sorted_regardless_of_emission_order() {
    let mut ser = Serializer::new();
    ser.visit_map(Some(2)).unwrap();
    ser.visit_str("b").unwrap();
    ser.visit_i64(2).unwrap();
    ser.map_elt_done().unwrap();
    ser.visit_str("a").unwrap();
    ser.visit_i64(1).unwrap();
    ser.map_elt_done().unwrap();
    ser.end_map().unwrap();
    let v = ser.unwrap().unwrap();
    assert_eq!(
        v,
        Value::Object(vec![
            ("a".to_string(), Value::I64(1)),
            ("b".to_string(), Value::I64(2)),
        ])
    );
}

#[test]
fn array_order_is_preserved() {
    let v = Value::Array(vec![Value::I64(3), Value::I64(1), Value::I64(2)]);
    let built = to_value(&v).unwrap();
    assert_eq!(
        built,
        Value::Array(vec![Value::I64(3), Value::I64(1), Value::I64(2)])
    );
    let back: Value = from_value(built).unwrap();
    assert_eq!(
        back,
        Value::Array(vec![Value::I64(3), Value::I64(1), Value::I64(2)])
    );
}

#[test]
fn arity_underpull_is_end_of_stream() {
    let v = Value::Array(vec![Value::I64(1), Value::I64(2), Value::I64(3)]);
    let mut de = Deserializer::new(v);
    match de.visit().unwrap() {
        Event::Sequence(mut drv) => {
            assert_eq!(drv.size_hint(), (3, Some(3)));
            let a: Option<Value> = drv.visit().unwrap();
            let b: Option<Value> = drv.visit().unwrap();
            assert_eq!(a, Some(Value::I64(1)));
            assert_eq!(b, Some(Value::I64(2)));
            assert_eq!(drv.end(), Err(Error::EndOfStream));
        }
        _ => panic!("expected a sequence"),
    }
}

#[test]
fn arity_overpull_is_none_without_error() {
    let v = Value::Array(vec![Value::I64(1), Value::I64(2), Value::I64(3)]);
    let mut de = Deserializer::new(v);
    match de.visit().unwrap() {
        Event::Sequence(mut drv) => {
            for _ in 0..3 {
                let got: Option<Value> = drv.visit().unwrap();
                assert!(got.is_some());
            }
            let fourth: Option<Value> = drv.visit().unwrap();
            assert_eq!(fourth, None);
            assert_eq!(drv.end(), Ok(()));
        }
        _ => panic!("expected a sequence"),
    }
}

#[test]
fn positions_over_ab_newline_cd() {
    let items: Vec<Result<u8, ()>> =
        vec![Ok(b'a'), Ok(b'b'), Ok(b'\n'), Ok(b'c'), Ok(b'd')];
    let mut it = LineColIterator::new(ByteStream::from_items(items));
    assert_eq!(it.line(), 1);
    assert_eq!(it.col(), 0);
    assert_eq!(it.next(), Some(Ok(b'a')));
    assert_eq!((it.line(), it.col()), (1, 1));
    assert_eq!(it.next(), Some(Ok(b'b')));
    assert_eq!((it.line(), it.col()), (1, 2));
    assert_eq!(it.next(), Some(Ok(b'\n')));
    assert_eq!((it.line(), it.col()), (2, 0));
    assert_eq!(it.next(), Some(Ok(b'c')));
    assert_eq!((it.line(), it.col()), (2, 1));
    assert_eq!(it.next(), Some(Ok(b'd')));
    assert_eq!((it.line(), it.col()), (2, 2));
    assert_eq!(it.next(), None);
    assert_eq!((it.line(), it.col()), (2, 2));
}

#[test]
fn errors_pass_through_without_moving_position() {
    let items: Vec<Result<u8, String>> =
        vec![Ok(b'a'), Err("boom".to_string()), Ok(b'b')];
    let mut it = LineColIterator::new(ByteStream::from_items(items));
    assert_eq!(it.next(), Some(Ok(b'a')));
    assert_eq!((it.line(), it.col()), (1, 1));
    assert_eq!(it.next(), Some(Err("boom".to_string())));
    assert_eq!((it.line(), it.col()), (1, 1));
    assert_eq!(it.next(), Some(Ok(b'b')));
    assert_eq!((it.line(), it.col()), (1, 2));
}

#[test]
fn peek_does_not_consume() {
    let items: Vec<Result<u8, ()>> = vec![Ok(7), Ok(8)];
    let mut it = LineColIterator::new(ByteStream::from_items(items));
    assert_eq!(it.peek(), Some(&Ok(7)));
    assert_eq!(it.peek(), Some(&Ok(7)));
    assert_eq!((it.line(), it.col()), (1, 0));
    assert_eq!(it.next(), Some(Ok(7)));
    assert_eq!(it.peek(), Some(&Ok(8)));
}

#[test]
fn underlying_stream_accessors() {
    let items: Vec<Result<u8, ()>> = vec![Ok(1), Ok(2)];
    let mut it = LineColIterator::new(ByteStream::from_items(items));
    assert_eq!(it.get_ref().len(), 2);
    assert_eq!(it.get_mut().next(), Some(Ok(1)));
    assert_eq!(it.get_ref().len(), 1);
    let inner = it.into_inner();
    assert_eq!(inner.len(), 1);
}

#[test]
fn scenario_object_with_nested_array() {
    let mut ser = Serializer::new();
    ser.visit_map(Some(2)).unwrap();
    ser.visit_str("x").unwrap();
    ser.visit_i64(1).unwrap();
    ser.map_elt_done().unwrap();
    ser.visit_str("y").unwrap();
    ser.visit_seq(Some(2)).unwrap();
    ser.visit_bool(true).unwrap();
    ser.seq_elt_done().unwrap();
    ser.visit_unit().unwrap();
    ser.seq_elt_done().unwrap();
    ser.end_seq().unwrap();
    ser.map_elt_done().unwrap();
    ser.end_map().unwrap();
    let v = ser.unwrap().unwrap();
    assert_eq!(
        v,
        Value::Object(vec![
            ("x".to_string(), Value::I64(1)),
            (
                "y".to_string(),
                Value::Array(vec![Value::Bool(true), Value::Null])
            ),
        ])
    );

    let mut de = Deserializer::new(v);
    match de.visit().unwrap() {
        Event::Mapping(mut drv) => {
            let k1: Option<Value> = drv.visit_key().unwrap();
            assert_eq!(k1, Some(Value::String("x".to_string())));
            let v1: Value = drv.visit_value().unwrap();
            assert_eq!(v1, Value::I64(1));
            let k2: Option<Value> = drv.visit_key().unwrap();
            assert_eq!(k2, Some(Value::String("y".to_string())));
            let v2: Value = drv.visit_value().unwrap();
            assert_eq!(
                v2,
                Value::Array(vec![Value::Bool(true), Value::Null])
            );
            assert_eq!(drv.end(), Ok(()));
        }
        _ => panic!("expected a mapping"),
    }
}

#[test]
fn u64_narrowing_truncates() {
    let big: u64 = (1u64 << 63) + 5;
    let mut ser = Serializer::new();
    ser.visit_u64(big).unwrap();
    let v = ser.unwrap().unwrap();
    assert_eq!(v, Value::I64(big as i64));
    assert_eq!(v, Value::I64(i64::MIN + 5));
}

#[test]
fn non_string_key_is_type_mismatch() {
    let mut ser = Serializer::new();
    ser.visit_map(None).unwrap();
    ser.visit_i64(1).unwrap();
    ser.visit_i64(2).unwrap();
    assert_eq!(ser.map_elt_done(), Err(Error::TypeMismatch));
}

#[test]
fn protocol_defects_are_distinct() {
    let mut ser = Serializer::new();
    assert_eq!(ser.seq_elt_done(), Err(Error::Defect));
    assert_eq!(ser.end_seq(), Err(Error::Defect));
    assert_eq!(ser.end_map(), Err(Error::Defect));
    let empty = Serializer::new();
    assert_eq!(empty.unwrap(), Err(Error::Defect));

    let mut de = Deserializer::new(Value::Object(vec![(
        "k".to_string(),
        Value::Null,
    )]));
    match de.visit().unwrap() {
        Event::Mapping(mut drv) => {
            let got: Result<Value, Error> = drv.visit_value();
            assert_eq!(got, Err(Error::Defect));
        }
        _ => panic!("expected a mapping"),
    }
}

#[test]
fn consuming_twice_is_end_of_stream() {
    let mut de = Deserializer::new(Value::Bool(true));
    match de.visit().unwrap() {
        Event::Bool(b) => assert!(b),
        _ => panic!("expected a boolean"),
    }
    match de.visit() {
        Err(Error::EndOfStream) => {}
        _ => panic!("expected end of stream"),
    }
}

#[test]
fn char_becomes_single_character_string() {
    let mut ser = Serializer::new();
    ser.visit_char('q').unwrap();
    let v = ser.unwrap().unwrap();
    assert_eq!(v, Value::String("q".to_string()));
}

#[test]
fn none_is_null_and_some_forwards() {
    let mut ser = Serializer::new();
    ser.visit_none().unwrap();
    assert_eq!(ser.unwrap().unwrap(), Value::Null);

    let mut ser = Serializer::new();
    ser.visit_some(&Value::Bool(true)).unwrap();
    assert_eq!(ser.unwrap().unwrap(), Value::Bool(true));
}

#[test]
fn option_probe() {
    let mut de = Deserializer::new(Value::Null);
    assert!(matches!(de.visit_option(), Ok(OptionEvent::Absent)));

    let mut de = Deserializer::new(Value::I64(7));
    assert!(matches!(de.visit_option(), Ok(OptionEvent::Present)));
    match de.visit().unwrap() {
        Event::I64(n) => assert_eq!(n, 7),
        _ => panic!("expected the integer to remain"),
    }

    let mut de = Deserializer::new(Value::Null);
    let _ = de.visit();
    assert!(matches!(de.visit_option(), Err(Error::EndOfStream)));
}

#[test]
fn floats_survive_as_exact_bits() {
    let bits = (-0.0f64).to_bits();
    let v = Value::F64(bits);
    let built = to_value(&v).unwrap();
    let back: Value = from_value(built).unwrap();
    match back {
        Value::F64(b) => assert_eq!(f64::from_bits(b).to_bits(), bits),
        _ => panic!("expected a float"),
    }
    assert_ne!(Value::I64(1), Value::F64(1.0f64.to_bits()));
}

#[test]
fn top_level_visit_builds_one_value() {
    let mut ser = Serializer::new();
    ser.visit(&Value::String("s".to_string())).unwrap();
    assert_eq!(ser.unwrap().unwrap(), Value::String("s".to_string()));
}

#[test]
fn empty_containers_round_trip() {
    let v = Value::Array(vec![Value::Object(vec![]), Value::Array(vec![])]);
    let built = to_value(&v).unwrap();
    let back: Value = from_value(built).unwrap();
    assert_eq!(
        back,
        Value::Array(vec![Value::Object(vec![]), Value::Array(vec![])])
    );
}

#[test]
fn generic_element_emission() {
    let mut ser = Serializer::new();
    ser.visit_seq(Some(2)).unwrap();
    ser.visit_seq_elt(true, &Value::I64(1)).unwrap();
    ser.visit_seq_elt(false, &Value::I64(2)).unwrap();
    ser.end_seq().unwrap();
    assert_eq!(
        ser.unwrap().unwrap(),
        Value::Array(vec![Value::I64(1), Value::I64(2)])
    );

    let mut ser = Serializer::new();
    ser.visit_map(Some(1)).unwrap();
    ser.visit_map_elt(
        true,
        &Value::String("k".to_string()),
        &Value::Bool(false),
    )
    .unwrap();
    ser.end_map().unwrap();
    assert_eq!(
        ser.unwrap().unwrap(),
        Value::Object(vec![("k".to_string(), Value::Bool(false))])
    );
}

#[test]
fn keys_order_by_code_point() {
    assert!(matches!(cmp_keys("a", "b"), KeyOrder::Less));
    assert!(matches!(cmp_keys("b", "a"), KeyOrder::Greater));
    assert!(matches!(cmp_keys("ab", "ab"), KeyOrder::Equal));
    assert!(matches!(cmp_keys("ab", "abc"), KeyOrder::Less));
    assert!(matches!(cmp_keys("Z", "a"), KeyOrder::Less));
    assert!(matches!(cmp_keys("a", "\u{00e9}"), KeyOrder::Less));
}
