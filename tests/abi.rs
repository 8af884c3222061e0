use ola_lang_abi::{
    Abi, AbiEntry, AbiError, DecodedParams, Event, FixedArray4, Function, Param, ParamEntry,
    Type, Value,
};

fn entry(name: &str, ty: &str) -> ParamEntry {
    ParamEntry { name: name.to_string(), type_: ty.to_string(), indexed: None, components: None }
}

fn function_entry(name: &str, inputs: Vec<ParamEntry>, outputs: Vec<ParamEntry>) -> AbiEntry {
    AbiEntry {
        type_: "function".to_string(),
        name: Some(name.to_string()),
        inputs: Some(inputs),
        outputs: Some(outputs),
        anonymous: None,
    }
}

fn test_abi_entries() -> Vec<AbiEntry> {
    vec![
        function_entry("contract_init", vec![entry("proposalNames_", "u32[]")], vec![]),
        function_entry("winningProposal", vec![], vec![entry("winningProposal_", "u32")]),
        function_entry("getWinnerName", vec![], vec![entry("", "u32")]),
        function_entry("vote_proposal", vec![entry("proposal_", "u32")], vec![]),
        function_entry("get_caller", vec![], vec![entry("", "address")]),
        function_entry("vote_test", vec![], vec![]),
    ]
}

fn test_function() -> Function {
    Function {
        name: "funname".to_string(),
        inputs: vec![
            Param { name: "".to_string(), type_: Type::Address, indexed: None },
            Param {
                name: "x".to_string(),
                type_: Type::FixedArray(Box::new(Type::U32), 2),
                indexed: None,
            },
        ],
        outputs: vec![],
    }
}

fn pairs(ps: &[Param], vs: Vec<Value>) -> DecodedParams {
    DecodedParams::from_pairs(ps.iter().cloned().zip(vs).collect::<Vec<(Param, Value)>>())
}

#[test]
fn function_signature() {
    let fun = test_function();
    assert_eq!(fun.signature(), "funname(address,u32[2])");
}

#[test]
fn function_method_id() {
    let fun = test_function();
    assert_eq!(fun.method_id(), 0xf146ff09);
}

#[test]
fn abi_function_decode_input_from_slice() {
    let addr = [1, 2, 3, 4];
    let uint1 = 37;
    let uint2 = 109;

    let input_values = vec![
        Value::Address(FixedArray4(addr)),
        Value::FixedArray(vec![Value::U32(uint1), Value::U32(uint2)], Type::U32),
    ];

    let fun = test_function();
    let abi = Abi { functions: vec![fun], events: vec![] };

    let mut params = Value::encode(&input_values);
    params.push(params.len() as u64);
    params.push(abi.functions[0].method_id());
    let dec: (&Function, DecodedParams) =
        abi.decode_input_from_slice(&params).expect("decode_input_from_slice failed");

    let expected_decoded_params = pairs(&abi.functions[0].inputs, input_values);

    assert_eq!(dec, (&abi.functions[0], expected_decoded_params));
}

#[test]
fn abi_json_work() {
    let entries = vec![function_entry(
        "f",
        vec![
            entry("n", "u32"),
            ParamEntry {
                name: "x".to_string(),
                type_: "tuple".to_string(),
                indexed: None,
                components: Some(vec![entry("a", "u32"), entry("b", "string")]),
            },
        ],
        vec![],
    )];

    let abi = Abi::from_entries(&entries).unwrap();

    assert_eq!(
        abi,
        Abi {
            functions: vec![Function {
                name: "f".to_string(),
                inputs: vec![
                    Param { name: "n".to_string(), type_: Type::U32, indexed: None },
                    Param {
                        name: "x".to_string(),
                        type_: Type::Tuple(vec![
                            ("a".to_string(), Type::U32),
                            ("b".to_string(), Type::String)
                        ]),
                        indexed: None,
                    }
                ],
                outputs: vec![],
            }],
            events: vec![],
        }
    );
}

#[test]
fn test_serde() {
    let abi = Abi::from_entries(&test_abi_entries()).unwrap();

    let ser_abi = abi.to_entries();
    let de_abi = Abi::from_entries(&ser_abi).expect("deserialized abi");

    assert_eq!(abi, de_abi);
}

#[test]
fn entries_keep_function_and_event_order() {
    let mut entries = test_abi_entries();
    entries.insert(
        1,
        AbiEntry {
            type_: "event".to_string(),
            name: Some("Voted".to_string()),
            inputs: Some(vec![entry("who", "address")]),
            outputs: None,
            anonymous: Some(false),
        },
    );
    let abi = Abi::from_entries(&entries).unwrap();
    assert_eq!(abi.functions.len(), 6);
    assert_eq!(abi.functions[1].name, "winningProposal");
    assert_eq!(abi.events.len(), 1);
    assert_eq!(abi.events[0].name, "Voted");
    let back = abi.to_entries();
    assert_eq!(back.len(), 7);
    assert_eq!(back[6].type_, "event");
    assert_eq!(Abi::from_entries(&back).unwrap(), abi);
}

#[test]
fn schema_errors() {
    let mut bad_kind = function_entry("f", vec![], vec![]);
    bad_kind.type_ = "constructor".to_string();
    assert_eq!(Abi::from_entries(&vec![bad_kind]), Err(AbiError::Schema));

    let mut no_name = function_entry("f", vec![], vec![]);
    no_name.name = None;
    assert_eq!(Abi::from_entries(&vec![no_name]), Err(AbiError::Schema));

    let event_without_flag = AbiEntry {
        type_: "event".to_string(),
        name: Some("E".to_string()),
        inputs: None,
        outputs: None,
        anonymous: None,
    };
    assert_eq!(Abi::from_entries(&vec![event_without_flag]), Err(AbiError::Schema));

    let bad_type = function_entry("f", vec![entry("a", "u31")], vec![]);
    assert_eq!(Abi::from_entries(&vec![bad_type]), Err(AbiError::Grammar));

    // The first failing entry decides.
    let mut unknown = function_entry("g", vec![], vec![]);
    unknown.type_ = "error".to_string();
    let entries = vec![unknown, function_entry("f", vec![entry("a", "u31")], vec![])];
    assert_eq!(Abi::from_entries(&entries), Err(AbiError::Schema));
}

#[test]
fn missing_lists_are_empty() {
    let e = AbiEntry {
        type_: "function".to_string(),
        name: Some("f".to_string()),
        inputs: None,
        outputs: None,
        anonymous: None,
    };
    let abi = Abi::from_entries(&vec![e]).unwrap();
    assert!(abi.functions[0].inputs.is_empty());
    assert!(abi.functions[0].outputs.is_empty());
    assert_eq!(abi.functions[0].signature(), "f()");
}

#[test]
fn signature_ignores_parameter_names_and_outputs() {
    let f = test_function();
    let mut g = test_function();
    g.inputs[0].name = "renamed".to_string();
    g.inputs[1].name = "y".to_string();
    g.outputs = vec![Param { name: "o".to_string(), type_: Type::Bool, indexed: None }];
    assert_eq!(f.signature(), g.signature());
    assert_eq!(f.method_id(), g.method_id());
}

#[test]
fn tuple_signature_is_the_word_tuple() {
    let f = Function {
        name: "t".to_string(),
        inputs: vec![Param {
            name: "s".to_string(),
            type_: Type::Tuple(vec![("a".to_string(), Type::U32)]),
            indexed: None,
        }],
        outputs: vec![],
    };
    assert_eq!(f.signature(), "t(tuple)");
}

#[test]
fn end_to_end_function_input() {
    let abi = Abi { functions: vec![test_function()], events: vec![] };
    let values = vec![
        Value::Address(FixedArray4([1, 2, 3, 4])),
        Value::FixedArray(vec![Value::U32(37), Value::U32(109)], Type::U32),
    ];
    let words = abi.encode_input_with_signature("funname(address,u32[2])", &values).unwrap();
    assert_eq!(words, vec![1, 2, 3, 4, 37, 109, 6, 0xf146ff09]);
    let (f, d) = abi.decode_input_from_slice(&words).unwrap();
    assert_eq!(f, &abi.functions[0]);
    assert_eq!(d.0.len(), 2);
    assert_eq!(d.0[0].value, values[0]);
    assert_eq!(d.0[1].value, values[1]);
}

#[test]
fn end_to_end_function_output() {
    let abi = Abi {
        functions: vec![Function {
            name: "getName".to_string(),
            inputs: vec![],
            outputs: vec![Param { name: "".to_string(), type_: Type::String, indexed: None }],
        }],
        events: vec![],
    };
    let output = vec![5, 104, 101, 108, 108, 111, 6];
    let (f, d) = abi.decode_output_from_slice("getName()", &output).unwrap();
    assert_eq!(f.name, "getName");
    assert_eq!(d.0.len(), 1);
    assert_eq!(d.0[0].value, Value::String("hello".to_string()));
}

#[test]
fn not_found_and_missing_topic() {
    let abi = Abi { functions: vec![test_function()], events: vec![] };
    assert_eq!(abi.decode_input_from_slice(&[1, 2, 3]), Err(AbiError::NotFound));
    assert_eq!(abi.decode_output_from_slice("nope()", &[0]), Err(AbiError::NotFound));
    assert_eq!(abi.encode_input_with_signature("nope()", &[]), Err(AbiError::NotFound));
    assert_eq!(abi.decode_log_from_slice(&[], &[]), Err(AbiError::MissingTopic));
    assert_eq!(
        abi.decode_log_from_slice(&[FixedArray4([0, 0, 0, 0])], &[]),
        Err(AbiError::NotFound)
    );
}

#[test]
fn short_streams_are_codec_errors() {
    let abi = Abi { functions: vec![test_function()], events: vec![] };
    assert_eq!(abi.decode_input_from_slice(&[]), Err(AbiError::Codec));
    assert_eq!(abi.decode_input_from_slice(&[0xf146ff09]), Err(AbiError::Codec));
    assert_eq!(abi.decode_input_from_slice(&[1, 2, 3, 0xf146ff09]), Err(AbiError::Codec));
    assert_eq!(
        abi.decode_output_from_slice("funname(address,u32[2])", &[]),
        Err(AbiError::Codec)
    );
}

#[test]
fn encode_values_appends_count() {
    let abi = Abi { functions: vec![], events: vec![] };
    let words = abi
        .encode_values(&[Value::String("hi".to_string()), Value::Bool(true)])
        .unwrap();
    assert_eq!(words, vec![2, 104, 105, 1, 4]);
    assert_eq!(abi.encode_values(&[]).unwrap(), vec![0]);
}

fn transfer_event(anonymous: bool) -> Event {
    Event {
        name: "Transfer".to_string(),
        inputs: vec![
            Param { name: "from".to_string(), type_: Type::Address, indexed: Some(true) },
            Param { name: "amount".to_string(), type_: Type::U32, indexed: None },
            Param { name: "memo".to_string(), type_: Type::String, indexed: Some(true) },
        ],
        anonymous,
    }
}

#[test]
fn event_topic_is_the_whole_digest() {
    let e = transfer_event(false);
    assert_eq!(e.signature(), "Transfer(address,u32,string)");
    let t = e.topic();
    let f = Function { name: "Transfer".to_string(), inputs: e.inputs.clone(), outputs: vec![] };
    // The method id is the first four bytes of the same digest.
    assert_eq!(t.0[0] >> 32, f.method_id());
}

#[test]
fn decode_log_interleaves_topics_and_data() {
    let abi = Abi { functions: vec![], events: vec![transfer_event(false)] };
    let topic = abi.events[0].topic();
    let from = FixedArray4([9, 8, 7, 6]);
    let memo = FixedArray4([1, 1, 1, 1]);
    let (e, d) = abi.decode_log_from_slice(&[topic, from, memo], &[77]).unwrap();
    assert_eq!(e.name, "Transfer");
    assert_eq!(d.0.len(), 3);
    assert_eq!(d.0[0].value, Value::Address(from));
    assert_eq!(d.0[1].value, Value::U32(77));
    assert_eq!(d.0[2].value, Value::Hash(memo));
    assert_eq!(d.0[2].param.name, "memo");
}

#[test]
fn decode_log_needs_a_topic_for_each_indexed_param() {
    let abi = Abi { functions: vec![], events: vec![transfer_event(false)] };
    let topic = abi.events[0].topic();
    assert_eq!(
        abi.decode_log_from_slice(&[topic, FixedArray4([9, 8, 7, 6])], &[77]),
        Err(AbiError::Codec)
    );
    assert_eq!(
        abi.decode_log_from_slice(&[topic, FixedArray4([9, 8, 7, 6]), topic], &[]),
        Err(AbiError::Codec)
    );
}

#[test]
fn anonymous_event_reads_every_topic() {
    let e = transfer_event(true);
    let from = FixedArray4([9, 8, 7, 6]);
    let memo = FixedArray4([1, 2, 3, 4]);
    let d = e.decode_data_from_slice(&[from, memo], &[5]).unwrap();
    assert_eq!(d.0[0].value, Value::Address(from));
    assert_eq!(d.0[1].value, Value::U32(5));
    assert_eq!(d.0[2].value, Value::Hash(memo));
}

#[test]
fn first_matching_function_wins() {
    let mut second = test_function();
    second.outputs = vec![Param { name: "o".to_string(), type_: Type::U32, indexed: None }];
    let abi = Abi { functions: vec![test_function(), second], events: vec![] };
    let words = vec![1, 2, 3, 4, 5, 6, 6, 0xf146ff09];
    let (f, _) = abi.decode_input_from_slice(&words).unwrap();
    assert!(f.outputs.is_empty());
}
