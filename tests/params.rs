use ola_lang_abi::{AbiError, Param, ParamEntry, Type};

fn entry(name: &str, ty: &str) -> ParamEntry {
    ParamEntry { name: name.to_string(), type_: ty.to_string(), indexed: None, components: None }
}

fn entry_with(name: &str, ty: &str, components: Vec<ParamEntry>) -> ParamEntry {
    ParamEntry {
        name: name.to_string(),
        type_: ty.to_string(),
        indexed: None,
        components: Some(components),
    }
}

fn check_simple(ty: &str, expected: Type) {
    let v = entry("a", ty);
    let param = Param::from_entry(&v).expect("param deserialized");
    assert_eq!(param, Param { name: "a".to_string(), type_: expected, indexed: None });
    let param_json = param.build_param_entry();
    assert_eq!(v, param_json);
}

#[test]
fn serde_u32() {
    check_simple("u32", Type::U32);
}

#[test]
fn serde_u256() {
    check_simple("u256", Type::U256);
}

#[test]
fn serde_field() {
    check_simple("field", Type::Field);
}

#[test]
fn serde_address() {
    check_simple("address", Type::Address);
}

#[test]
fn serde_bool() {
    check_simple("bool", Type::Bool);
}

#[test]
fn serde_string() {
    check_simple("string", Type::String);
}

#[test]
fn serde_fields() {
    check_simple("fields", Type::Fields);
}

#[test]
fn serde_array() {
    check_simple("u32[]", Type::Array(Box::new(Type::U32)));
}

#[test]
fn serde_nested_array() {
    check_simple("address[][]", Type::Array(Box::new(Type::Array(Box::new(Type::Address)))));
}

#[test]
fn serde_mixed_array() {
    check_simple(
        "string[2][]",
        Type::Array(Box::new(Type::FixedArray(Box::new(Type::String), 2))),
    );
    check_simple(
        "string[][3]",
        Type::FixedArray(Box::new(Type::Array(Box::new(Type::String))), 3),
    );
}

#[test]
fn serde_tuple() {
    let v = entry_with(
        "s",
        "tuple",
        vec![
            entry("a", "u32"),
            entry("b", "u32[]"),
            entry_with("c", "tuple[]", vec![entry("x", "u32"), entry("y", "u32")]),
        ],
    );

    let param = Param::from_entry(&v).expect("param deserialized");

    assert_eq!(
        param,
        Param {
            name: "s".to_string(),
            type_: Type::Tuple(vec![
                ("a".to_string(), Type::U32),
                ("b".to_string(), Type::Array(Box::new(Type::U32))),
                (
                    "c".to_string(),
                    Type::Array(Box::new(Type::Tuple(vec![
                        ("x".to_string(), Type::U32),
                        ("y".to_string(), Type::U32)
                    ])))
                )
            ]),
            indexed: None
        }
    );

    let param_json = param.build_param_entry();
    assert_eq!(v, param_json);
}

#[test]
fn bracket_fold_order_renders_back() {
    let t = Param::from_entry(&entry("a", "string[2][]")).unwrap().type_;
    assert_eq!(t, Type::Array(Box::new(Type::FixedArray(Box::new(Type::String), 2))));
    assert_eq!(ola_lang_abi::types::param_type_string(&t), "string[2][]");
    let t = Param::from_entry(&entry("a", "string[][3]")).unwrap().type_;
    assert_eq!(t, Type::FixedArray(Box::new(Type::Array(Box::new(Type::String))), 3));
    assert_eq!(ola_lang_abi::types::param_type_string(&t), "string[][3]");
}

#[test]
fn leading_zeros_in_a_size_normalize() {
    let t = Param::from_entry(&entry("a", "u32[007]")).unwrap().type_;
    assert_eq!(t, Type::FixedArray(Box::new(Type::U32), 7));
    assert_eq!(ola_lang_abi::types::param_type_string(&t), "u32[7]");
}

#[test]
fn tuple_reconciliation() {
    let v = entry_with("t", "tuple", vec![entry("a", "u32"), entry("b", "u32[]")]);
    let p = Param::from_entry(&v).unwrap();
    assert_eq!(
        p.type_,
        Type::Tuple(vec![
            ("a".to_string(), Type::U32),
            ("b".to_string(), Type::Array(Box::new(Type::U32)))
        ])
    );
}

#[test]
fn tuple_without_components_fails() {
    assert_eq!(Param::from_entry(&entry("t", "tuple")), Err(AbiError::Grammar));
    assert_eq!(Param::from_entry(&entry("t", "tuple[2]")), Err(AbiError::Grammar));
}

#[test]
fn component_that_fails_fails_the_tuple() {
    let v = entry_with("t", "tuple", vec![entry("a", "u32"), entry("b", "u64")]);
    assert_eq!(Param::from_entry(&v), Err(AbiError::Grammar));
}

#[test]
fn malformed_signatures_fail() {
    for ty in ["", "u33", "u32[", "u32]", "u32[1", "u32[a]", "u32 ", "[]", "u32[2]x", "fieldss"] {
        assert_eq!(Param::from_entry(&entry("a", ty)), Err(AbiError::Grammar), "{}", ty);
    }
    assert_eq!(
        Param::from_entry(&entry("a", "u32[99999999999999999999]")),
        Err(AbiError::Grammar)
    );
}

#[test]
fn largest_fixed_size_parses() {
    let t = Param::from_entry(&entry("a", "bool[18446744073709551615]")).unwrap().type_;
    assert_eq!(t, Type::FixedArray(Box::new(Type::Bool), u64::MAX));
    assert_eq!(
        ola_lang_abi::types::param_type_string(&t),
        "bool[18446744073709551615]"
    );
}

#[test]
fn fields_is_not_read_as_field() {
    let t = Param::from_entry(&entry("a", "fields[]")).unwrap().type_;
    assert_eq!(t, Type::Array(Box::new(Type::Fields)));
    let t = Param::from_entry(&entry("a", "field[]")).unwrap().type_;
    assert_eq!(t, Type::Array(Box::new(Type::Field)));
}

#[test]
fn indexed_flag_is_kept() {
    let mut v = entry("a", "hash");
    v.indexed = Some(true);
    let p = Param::from_entry(&v).unwrap();
    assert_eq!(p.indexed, Some(true));
    assert_eq!(p.build_param_entry(), v);
}

#[test]
fn tuple_two_array_layers_loses_components() {
    // Components are written for a tuple and for an array of tuples only, so
    // an array of arrays of tuples does not come back from its entry.
    let t = Type::Array(Box::new(Type::Array(Box::new(Type::Tuple(vec![(
        "x".to_string(),
        Type::U32,
    )])))));
    let p = Param { name: "d".to_string(), type_: t, indexed: None };
    let e = p.build_param_entry();
    assert_eq!(e.type_, "tuple[][]");
    assert_eq!(e.components, None);
    assert_eq!(Param::from_entry(&e), Err(AbiError::Grammar));
}
