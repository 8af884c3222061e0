use ola_lang_abi::{AbiError, DecodedParams, FixedArray4, Param, Type, Value};

fn round_trip(v: Value, t: Type) {
    let words = Value::encode(std::slice::from_ref(&v));
    let back = Value::decode_from_slice(&words, &[t]).unwrap();
    assert_eq!(back, vec![v]);
}

#[test]
fn scalars_take_one_word() {
    assert_eq!(Value::encode(&[Value::U32(7)]), vec![7]);
    assert_eq!(Value::encode(&[Value::Field(u64::MAX)]), vec![u64::MAX]);
    assert_eq!(Value::encode(&[Value::Bool(true), Value::Bool(false)]), vec![1, 0]);
}

#[test]
fn wide_kinds_take_four_words_in_order() {
    let w = FixedArray4([10, 20, 30, 40]);
    assert_eq!(Value::encode(&[Value::U256(w)]), vec![10, 20, 30, 40]);
    assert_eq!(Value::encode(&[Value::Hash(w)]), vec![10, 20, 30, 40]);
    assert_eq!(Value::encode(&[Value::Address(w)]), vec![10, 20, 30, 40]);
}

#[test]
fn strings_and_fields_are_length_prefixed() {
    assert_eq!(Value::encode(&[Value::String("hé".to_string())]), vec![2, 104, 233]);
    assert_eq!(Value::encode(&[Value::String(String::new())]), vec![0]);
    assert_eq!(Value::encode(&[Value::Fields(vec![3, 4])]), vec![2, 3, 4]);
}

#[test]
fn arrays_tuples_and_fixed_arrays() {
    let arr = Value::Array(vec![Value::U32(1), Value::U32(2)], Type::U32);
    assert_eq!(Value::encode(&[arr]), vec![2, 1, 2]);
    let fixed = Value::FixedArray(vec![Value::U32(1), Value::U32(2)], Type::U32);
    assert_eq!(Value::encode(&[fixed]), vec![1, 2]);
    let tup = Value::Tuple(vec![
        ("a".to_string(), Value::Bool(true)),
        ("b".to_string(), Value::String("x".to_string())),
    ]);
    assert_eq!(Value::encode(&[tup]), vec![1, 1, 120]);
}

#[test]
fn round_trips() {
    round_trip(Value::U32(u32::MAX), Type::U32);
    round_trip(Value::Field(12345), Type::Field);
    round_trip(Value::Bool(true), Type::Bool);
    round_trip(Value::U256(FixedArray4([1, 2, 3, 4])), Type::U256);
    round_trip(Value::Hash(FixedArray4([5, 6, 7, 8])), Type::Hash);
    round_trip(Value::String("ola vm \u{1F600}".to_string()), Type::String);
    round_trip(Value::Fields(vec![]), Type::Fields);
    round_trip(Value::Array(vec![], Type::String), Type::Array(Box::new(Type::String)));
    let tuple_ty = Type::Tuple(vec![
        ("a".to_string(), Type::U32),
        ("b".to_string(), Type::Array(Box::new(Type::U32))),
    ]);
    let tuple = Value::Tuple(vec![
        ("a".to_string(), Value::U32(1)),
        ("b".to_string(), Value::Array(vec![Value::U32(2), Value::U32(3)], Type::U32)),
    ]);
    round_trip(tuple, tuple_ty.clone());
    let nested = Value::Array(
        vec![Value::FixedArray(
            vec![Value::String("a".to_string()), Value::String("bc".to_string())],
            Type::String,
        )],
        Type::FixedArray(Box::new(Type::String), 2),
    );
    round_trip(
        nested,
        Type::Array(Box::new(Type::FixedArray(Box::new(Type::String), 2))),
    );
    round_trip(Value::FixedArray(vec![], Type::U32), Type::FixedArray(Box::new(Type::U32), 0));
}

#[test]
fn trailing_words_are_left_unread() {
    let back = Value::decode_from_slice(&[7, 8, 9], &[Type::U32]).unwrap();
    assert_eq!(back, vec![Value::U32(7)]);
}

#[test]
fn codec_errors() {
    assert_eq!(Value::decode_from_slice(&[], &[Type::U32]), Err(AbiError::Codec));
    assert_eq!(Value::decode_from_slice(&[1 << 32], &[Type::U32]), Err(AbiError::Codec));
    assert_eq!(Value::decode_from_slice(&[2], &[Type::Bool]), Err(AbiError::Codec));
    assert_eq!(Value::decode_from_slice(&[1, 2, 3], &[Type::Address]), Err(AbiError::Codec));
    assert_eq!(Value::decode_from_slice(&[3, 104, 105], &[Type::String]), Err(AbiError::Codec));
    assert_eq!(Value::decode_from_slice(&[1, 0xD800], &[Type::String]), Err(AbiError::Codec));
    assert_eq!(Value::decode_from_slice(&[1, 0x110000], &[Type::String]), Err(AbiError::Codec));
    assert_eq!(Value::decode_from_slice(&[5, 1], &[Type::Fields]), Err(AbiError::Codec));
    assert_eq!(
        Value::decode_from_slice(&[3, 1, 2], &[Type::Array(Box::new(Type::U32))]),
        Err(AbiError::Codec)
    );
    assert_eq!(
        Value::decode_from_slice(&[u64::MAX], &[Type::Array(Box::new(Type::U32))]),
        Err(AbiError::Codec)
    );
}

fn named(name: &str) -> Param {
    Param { name: name.to_string(), type_: Type::U32, indexed: None }
}

#[test]
fn name_index_omits_unnamed() {
    let d = DecodedParams::from_pairs(vec![
        (named(""), Value::U32(1)),
        (named("b"), Value::U32(2)),
    ]);
    let r = d.reader();
    assert_eq!(r.by_index.len(), 2);
    assert_eq!(r.by_index[0].value, Value::U32(1));
    assert_eq!(r.by_index[1].value, Value::U32(2));
    assert_eq!(r.by_name.len(), 1);
    assert_eq!(r.get("b").unwrap().value, Value::U32(2));
    assert!(r.get("").is_none());
    assert!(r.get("c").is_none());
}

#[test]
fn name_index_first_wins() {
    let d = DecodedParams::from_pairs(vec![
        (named("a"), Value::U32(1)),
        (named("a"), Value::U32(2)),
        (named("z"), Value::U32(3)),
    ]);
    let r = d.reader();
    assert_eq!(r.by_index.len(), 3);
    assert_eq!(r.by_name.len(), 2);
    assert_eq!(r.get("a").unwrap().value, Value::U32(1));
    assert_eq!(r.get("z").unwrap().value, Value::U32(3));
    assert_eq!(d.params().len(), 3);
}
