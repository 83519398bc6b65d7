use dove::codec::{decode_value, decode_type, Encoder};
use dove::error::AmqpError;
use dove::frame_codec::{FrameDecoder, FrameEncoder, ErrorCondition, TryFromValue};
use dove::types::{MapEntry, Symbol, TypeCode, Value};

fn assert_type(value: &Value, expected_len: usize, expected_type: TypeCode) {
    let mut output: Vec<u8> = Vec::new();
    let ctype = value.encode(&mut output).unwrap();
    assert_eq!(expected_type, ctype);
    assert_eq!(expected_len, output.len());

    let (decoded, end) = decode_value(&output, 0).unwrap();
    assert_eq!(end, output.len());
    assert_eq!(&decoded, value);
}

#[test]
fn check_types() {
    assert_type(&Value::Ulong(123), 2, TypeCode::Ulongsmall);
    assert_type(&Value::Ulong(1234), 9, TypeCode::Ulong);
    assert_type(
        &Value::String(String::from("Hello, world")),
        14,
        TypeCode::Str8,
    );
    assert_type(&Value::String(String::from("aaaaaaaaaaaaaaaaaaaabbbbbbbbbbbbbbbbbbbbbbbbbbcccccccccccccccccccccccdddddddddddddddddddddddddeeeeeeeeeeeeeeeeeeeeeeeeeffffffffffffffffffffgggggggggggggggggggggggghhhhhhhhhhhhhhhhhhhhhhhiiiiiiiiiiiiiiiiiiiiiiiijjjjjjjjjjjjjjjjjjjkkkkkkkkkkkkkkkkkkkkkkllllllllllllllllllllmmmmmmmmmmmmmmmmmmmmnnnnnnnnnnnnnnnnnnnnooooooooooooooooooooppppppppppppppppppqqqqqqqqqqqqqqqq")), 370, TypeCode::Str32);
    assert_type(
        &Value::List(vec![
            Value::Ulong(1),
            Value::Ulong(42),
            Value::String(String::from("Hello, world")),
        ]),
        21,
        TypeCode::List8,
    );
}

#[test]
fn ulong_small_exact_bytes() {
    let mut out: Vec<u8> = Vec::new();
    Value::Ulong(123).encode(&mut out).unwrap();
    assert_eq!(out, vec![0x53, 0x7B]);
    let (decoded, _) = decode_value(&out, 0).unwrap();
    assert_eq!(decoded, Value::Ulong(123));
}

#[test]
fn ulong_wide_exact_bytes() {
    let mut out: Vec<u8> = Vec::new();
    Value::Ulong(1234).encode(&mut out).unwrap();
    assert_eq!(out.len(), 9);
    assert_eq!(out[0], 0x80);
    assert_eq!(&out[1..], &[0, 0, 0, 0, 0, 0, 0x04, 0xD2]);
}

#[test]
fn string_short_exact_bytes() {
    let mut out: Vec<u8> = Vec::new();
    Value::String(String::from("Hello, world"))
        .encode(&mut out)
        .unwrap();
    assert_eq!(out.len(), 14);
    assert_eq!(out[0], 0xA1);
    assert_eq!(out[1], 0x0C);
    assert_eq!(&out[2..], "Hello, world".as_bytes());
}

#[test]
fn string_long_uses_wide_form() {
    let payload: String = std::iter::repeat('x').take(370).collect();
    let mut out: Vec<u8> = Vec::new();
    Value::String(payload.clone()).encode(&mut out).unwrap();
    assert_eq!(out.len(), 375);
    assert_eq!(&out[0..5], &[0xB1, 0, 0, 1, 0x72]);
    assert_eq!(&out[5..], payload.as_bytes());
    let (decoded, _) = decode_value(&out, 0).unwrap();
    assert_eq!(decoded, Value::String(payload));
}

#[test]
fn list_envelope_bytes() {
    let mut out: Vec<u8> = Vec::new();
    Value::List(vec![
        Value::Ulong(1),
        Value::Ulong(42),
        Value::String(String::from("Hello, world")),
    ])
    .encode(&mut out)
    .unwrap();
    assert_eq!(out.len(), 21);
    assert_eq!(out[0], 0xC0);
    assert_eq!(out[1], 0x13);
    assert_eq!(out[2], 0x03);
}

#[test]
fn error_condition_round_trip() {
    let value = Value::Described(
        Box::new(Value::Ulong(0x1D)),
        Box::new(Value::List(vec![
            Value::String(String::from("amqp:decode-error")),
            Value::String(String::from("bad frame")),
        ])),
    );
    let mut out: Vec<u8> = Vec::new();
    let code = value.encode(&mut out).unwrap();
    assert_eq!(code, TypeCode::Described);
    let (decoded, _) = decode_value(&out, 0).unwrap();
    assert_eq!(decoded, value);
    let ec = <ErrorCondition as TryFromValue>::try_from(decoded).unwrap();
    assert_eq!(ec.condition, "amqp:decode-error");
    assert_eq!(ec.description, "bad frame");
}

#[test]
fn error_condition_encoder_matches_value_encoding() {
    let ec = ErrorCondition {
        condition: String::from("amqp:decode-error"),
        description: String::from("bad frame"),
    };
    let mut via_encoder: Vec<u8> = Vec::new();
    ec.encode(&mut via_encoder).unwrap();
    let value = Value::Described(
        Box::new(Value::Ulong(0x1D)),
        Box::new(Value::List(vec![
            Value::String(String::from("amqp:decode-error")),
            Value::String(String::from("bad frame")),
        ])),
    );
    let mut via_value: Vec<u8> = Vec::new();
    value.encode(&mut via_value).unwrap();
    assert_eq!(via_encoder, via_value);
}

#[test]
fn frame_encoder_composes_described_list() {
    let mut framer = FrameEncoder::new(Value::Ulong(0x10));
    framer.encode_arg(&7u32).unwrap();
    framer.encode_arg(&String::from("container")).unwrap();
    let mut via_framer: Vec<u8> = Vec::new();
    let code = framer.encode(&mut via_framer).unwrap();
    assert_eq!(code, TypeCode::Described);

    let value = Value::Described(
        Box::new(Value::Ulong(0x10)),
        Box::new(Value::List(vec![
            Value::Uint(7),
            Value::String(String::from("container")),
        ])),
    );
    let mut via_value: Vec<u8> = Vec::new();
    value.encode(&mut via_value).unwrap();
    assert_eq!(via_framer, via_value);
}

#[test]
fn frame_encoder_empty_list_is_list0() {
    let framer = FrameEncoder::new(Value::Ulong(0x10));
    let mut out: Vec<u8> = Vec::new();
    framer.encode(&mut out).unwrap();
    assert_eq!(out, vec![0x00, 0x53, 0x10, 0x45]);
}

#[test]
fn frame_decoder_yields_slots_in_order() {
    let input = Value::List(vec![Value::Uint(1), Value::Uint(2), Value::Uint(3)]);
    let mut fd = FrameDecoder::new(Value::Ulong(0x10), input).unwrap();
    let mut a: u32 = 0;
    let mut b: u32 = 0;
    let mut c: u32 = 0;
    fd.decode_required(&mut a).unwrap();
    fd.decode_required(&mut b).unwrap();
    fd.decode_required(&mut c).unwrap();
    assert_eq!((a, b, c), (1, 2, 3));

    let mut d: u32 = 99;
    assert!(fd.decode_required(&mut d).is_err());
    assert_eq!(d, 99);
    fd.decode_optional(&mut d).unwrap();
    assert_eq!(d, 99);
}

#[test]
fn frame_decoder_rejects_non_list() {
    let err = FrameDecoder::new(Value::Ulong(0x10), Value::Uint(1)).unwrap_err();
    assert_eq!(err.condition().as_str(), "amqp:decode-error");
}

#[test]
fn frame_decoder_optional_null_slot() {
    let input = Value::List(vec![Value::Null, Value::Uint(5)]);
    let mut fd = FrameDecoder::new(Value::Ulong(0x10), input).unwrap();
    let mut a: Option<u32> = Some(3);
    let mut b: Option<u32> = None;
    fd.decode_optional(&mut a).unwrap();
    assert_eq!(a, None);
    fd.decode_optional(&mut b).unwrap();
    assert_eq!(b, Some(5));
}

#[test]
fn decode_tolerates_wide_boolean() {
    let (v, end) = decode_value(&[0x56, 1], 0).unwrap();
    assert_eq!(v, Value::Bool(true));
    assert_eq!(end, 2);
    let (v, _) = decode_value(&[0x56, 0], 0).unwrap();
    assert_eq!(v, Value::Bool(false));
}

#[test]
fn decode_tolerates_wide_uint_for_small_values() {
    let (v, end) = decode_value(&[0x70, 0, 0, 0, 5], 0).unwrap();
    assert_eq!(v, Value::Uint(5));
    assert_eq!(end, 5);
    let (v, _) = decode_value(&[0x52, 0], 0).unwrap();
    assert_eq!(v, Value::Uint(0));
    let (v, _) = decode_value(&[0x80, 0, 0, 0, 0, 0, 0, 0, 7], 0).unwrap();
    assert_eq!(v, Value::Ulong(7));
}

#[test]
fn booleans_encode_compact() {
    let mut out: Vec<u8> = Vec::new();
    Value::Bool(true).encode(&mut out).unwrap();
    Value::Bool(false).encode(&mut out).unwrap();
    assert_eq!(out, vec![0x41, 0x42]);
}

#[test]
fn scalar_round_trips() {
    assert_type(&Value::Null, 1, TypeCode::Null);
    assert_type(&Value::Bool(true), 1, TypeCode::Booleantrue);
    assert_type(&Value::Bool(false), 1, TypeCode::Booleanfalse);
    assert_type(&Value::Ubyte(200), 2, TypeCode::Ubyte);
    assert_type(&Value::Ushort(40000), 3, TypeCode::Ushort);
    assert_type(&Value::Uint(0), 1, TypeCode::Uint0);
    assert_type(&Value::Uint(200), 2, TypeCode::Uintsmall);
    assert_type(&Value::Uint(70000), 5, TypeCode::Uint);
    assert_type(&Value::Ulong(0), 1, TypeCode::Ulong0);
    assert_type(&Value::Byte(-3), 2, TypeCode::Byte);
    assert_type(&Value::Short(-300), 3, TypeCode::Short);
    assert_type(&Value::Int(-128), 2, TypeCode::Intsmall);
    assert_type(&Value::Int(127), 2, TypeCode::Intsmall);
    assert_type(&Value::Long(-128), 2, TypeCode::Longsmall);
    assert_type(&Value::Long(1i64 << 40), 9, TypeCode::Long);
}

#[test]
fn negative_int_below_small_range_uses_wide_form() {
    let mut out: Vec<u8> = Vec::new();
    let code = Value::Int(-1000).encode(&mut out).unwrap();
    assert_eq!(code, TypeCode::Int);
    assert_eq!(out[0], 0x71);
    let (decoded, _) = decode_value(&out, 0).unwrap();
    assert_eq!(decoded, Value::Int(-1000));

    let mut out: Vec<u8> = Vec::new();
    let code = Value::Long(-129).encode(&mut out).unwrap();
    assert_eq!(code, TypeCode::Long);
    let (decoded, _) = decode_value(&out, 0).unwrap();
    assert_eq!(decoded, Value::Long(-129));
}

#[test]
fn binary_and_symbol_round_trips() {
    assert_type(&Value::Binary(vec![1, 2, 3]), 5, TypeCode::Bin8);
    assert_type(&Value::Binary(vec![7; 300]), 305, TypeCode::Bin32);
    assert_type(
        &Value::Symbol(Symbol::from_str("amqp:link:stolen")),
        18,
        TypeCode::Sym8,
    );
}

#[test]
fn symbol_accessors() {
    let sym = Symbol::from_slice(b"abc");
    assert_eq!(sym.to_slice(), b"abc");
    assert_eq!(Symbol::from_vec(b"abc".to_vec()), sym);
    assert_eq!(Symbol::from_string("abc"), sym);
}

#[test]
fn map_round_trip_preserves_entry_order() {
    let value = Value::Mapping(vec![
        MapEntry { key: Value::String(String::from("b")), value: Value::Uint(2) },
        MapEntry { key: Value::String(String::from("a")), value: Value::Uint(1) },
    ]);
    let mut out: Vec<u8> = Vec::new();
    let code = value.encode(&mut out).unwrap();
    assert_eq!(code, TypeCode::Map8);
    assert_eq!(out[0], 0xC1);
    assert_eq!(out[2], 4);
    let (decoded, _) = decode_value(&out, 0).unwrap();
    assert_eq!(decoded, value);
}

#[test]
fn homogeneous_array_round_trips() {
    let value = Value::Array(vec![Value::Ulong(1), Value::Ulong(2), Value::Ulong(3)]);
    let mut out: Vec<u8> = Vec::new();
    let code = value.encode(&mut out).unwrap();
    assert_eq!(code, TypeCode::Array8);
    assert_eq!(out, vec![0xE0, 5, 3, 0x53, 1, 2, 3]);
    let (decoded, _) = decode_value(&out, 0).unwrap();
    assert_eq!(decoded, value);
}

#[test]
fn mixed_array_is_rejected() {
    let value = Value::Array(vec![Value::Ulong(1), Value::Ulong(1000)]);
    let mut out: Vec<u8> = Vec::new();
    let err = value.encode(&mut out).unwrap_err();
    assert_eq!(err.condition().as_str(), "amqp:decode-error");
}

#[test]
fn empty_array_encodes_as_null() {
    let mut out: Vec<u8> = Vec::new();
    let code = Value::Array(Vec::new()).encode(&mut out).unwrap();
    assert_eq!(code, TypeCode::Null);
    assert_eq!(out, vec![0x40]);
    let (decoded, _) = decode_value(&out, 0).unwrap();
    assert_eq!(decoded, Value::Null);
}

#[test]
fn nested_composites_round_trip() {
    let value = Value::List(vec![
        Value::List(vec![Value::Uint(1), Value::String(String::from("x"))]),
        Value::Described(Box::new(Value::Ulong(9)), Box::new(Value::Null)),
        Value::Binary(vec![0xFF, 0x00]),
    ]);
    assert_type(&value, 19, TypeCode::List8);
}

#[test]
fn empty_list_is_list0() {
    assert_type(&Value::List(Vec::new()), 1, TypeCode::List0);
}

#[test]
fn unknown_type_code_is_rejected() {
    let err = decode_value(&[0x39, 0, 0], 0).unwrap_err();
    assert_eq!(err.condition().as_str(), "amqp:decode-error");
    assert!(decode_type(0x39).is_err());
    assert_eq!(decode_type(0x53).unwrap(), TypeCode::Ulongsmall);
    assert_eq!(TypeCode::Ulongsmall.to_byte(), 0x53);
    assert_eq!(TypeCode::Described.to_byte(), 0x00);
}

#[test]
fn short_reads_are_rejected() {
    assert!(decode_value(&[], 0).is_err());
    assert!(decode_value(&[0x80, 0, 0], 0).unwrap_err().condition().as_str() == "amqp:decode-error");
    assert!(decode_value(&[0xA1, 5, b'h', b'i'], 0).is_err());
    assert!(decode_value(&[0xC0, 2, 1], 0).is_err());
}

#[test]
fn invalid_utf8_string_is_rejected() {
    let err = decode_value(&[0xA1, 1, 0xFF], 0).unwrap_err();
    assert_eq!(err.condition().as_str(), "amqp:decode-error");
}

#[test]
fn conversion_type_mismatch_is_rejected() {
    assert!(<u32 as TryFromValue>::try_from(Value::Ushort(5)).is_err());
    assert!(<u16 as TryFromValue>::try_from(Value::Uint(5)).is_err());
    assert!(<String as TryFromValue>::try_from(Value::Uint(5)).is_err());
    assert!(<Symbol as TryFromValue>::try_from(Value::Null).is_err());
    assert_eq!(<u32 as TryFromValue>::try_from(Value::Uint(5)).unwrap(), 5);
    assert_eq!(<u16 as TryFromValue>::try_from(Value::Ushort(5)).unwrap(), 5);
    assert_eq!(
        <Option<u32> as TryFromValue>::try_from(Value::Null).unwrap(),
        None
    );
}

#[test]
fn error_condition_rejects_wrong_shape() {
    let wrong_desc = Value::Described(Box::new(Value::Ulong(7)), Box::new(Value::List(vec![])));
    assert!(<ErrorCondition as TryFromValue>::try_from(wrong_desc).is_err());
    let not_list = Value::Described(Box::new(Value::Ulong(0x1D)), Box::new(Value::Uint(1)));
    assert!(<ErrorCondition as TryFromValue>::try_from(not_list).is_err());
    assert!(<ErrorCondition as TryFromValue>::try_from(Value::Null).is_err());
    let non_text_slot = Value::Described(
        Box::new(Value::Ulong(0x1D)),
        Box::new(Value::List(vec![Value::Uint(1)])),
    );
    assert!(<ErrorCondition as TryFromValue>::try_from(non_text_slot).is_err());
}

#[test]
fn value_accessors() {
    assert_eq!(Value::Uint(9).try_to_u32(), Some(9));
    assert_eq!(Value::Ulong(9).try_to_u32(), None);
    assert_eq!(Value::Ushort(9).try_to_u16(), Some(9));
    assert_eq!(Value::Uint(9).try_to_u16(), None);
    assert_eq!(
        Value::String(String::from("hi")).try_to_string(),
        Some(String::from("hi"))
    );
    assert_eq!(
        Value::Symbol(Symbol::from_str("sym")).try_to_string(),
        Some(String::from("sym"))
    );
    assert_eq!(Value::Uint(9).try_to_string(), None);
    assert_eq!(Value::String(String::from("hi")).to_string(), "hi");
}

#[test]
fn oversized_symbol_round_trips_wide() {
    let sym = Symbol::from_vec(vec![b'a'; 300]);
    let value = Value::Symbol(sym);
    let mut out: Vec<u8> = Vec::new();
    let code = value.encode(&mut out).unwrap();
    assert_eq!(code, TypeCode::Sym32);
    assert_eq!(out.len(), 305);
    let (decoded, _) = decode_value(&out, 0).unwrap();
    assert_eq!(decoded, value);
}

#[test]
fn large_list_uses_wide_envelope() {
    let elems: Vec<Value> = (0..100u64).map(|i| Value::Ulong(i + 256)).collect();
    let value = Value::List(elems);
    let mut out: Vec<u8> = Vec::new();
    let code = value.encode(&mut out).unwrap();
    assert_eq!(code, TypeCode::List32);
    assert_eq!(out[0], 0xD0);
    assert_eq!(out.len(), 9 + 900);
    let (decoded, end) = decode_value(&out, 0).unwrap();
    assert_eq!(end, out.len());
    assert_eq!(decoded, value);
}

#[test]
fn decode_consumes_one_value_and_reports_position() {
    let mut out: Vec<u8> = Vec::new();
    Value::Ulong(123).encode(&mut out).unwrap();
    Value::Uint(7).encode(&mut out).unwrap();
    let (first, mid) = decode_value(&out, 0).unwrap();
    assert_eq!(first, Value::Ulong(123));
    assert_eq!(mid, 2);
    let (second, end) = decode_value(&out, mid).unwrap();
    assert_eq!(second, Value::Uint(7));
    assert_eq!(end, out.len());
}

#[test]
fn option_encoder_writes_null_for_absent() {
    let mut out: Vec<u8> = Vec::new();
    let absent: Option<u32> = None;
    let code = absent.encode(&mut out).unwrap();
    assert_eq!(code, TypeCode::Null);
    let present: Option<u32> = Some(300);
    let code = present.encode(&mut out).unwrap();
    assert_eq!(code, TypeCode::Uint);
    assert_eq!(out, vec![0x40, 0x70, 0, 0, 1, 0x2C]);
}

#[test]
fn plain_type_encoders_match_value_encoders() {
    let mut via_plain: Vec<u8> = Vec::new();
    true.encode(&mut via_plain).unwrap();
    7u16.encode(&mut via_plain).unwrap();
    70000u32.encode(&mut via_plain).unwrap();
    5u64.encode(&mut via_plain).unwrap();
    String::from("hey").encode(&mut via_plain).unwrap();
    Symbol::from_str("sym").encode(&mut via_plain).unwrap();
    vec![9u8, 8u8].encode(&mut via_plain).unwrap();

    let mut via_value: Vec<u8> = Vec::new();
    Value::Bool(true).encode(&mut via_value).unwrap();
    Value::Ushort(7).encode(&mut via_value).unwrap();
    Value::Uint(70000).encode(&mut via_value).unwrap();
    Value::Ulong(5).encode(&mut via_value).unwrap();
    Value::String(String::from("hey")).encode(&mut via_value).unwrap();
    Value::Symbol(Symbol::from_str("sym")).encode(&mut via_value).unwrap();
    Value::Binary(vec![9, 8]).encode(&mut via_value).unwrap();
    assert_eq!(via_plain, via_value);
}

#[test]
fn amqp_error_accessors() {
    let e = AmqpError::decode_error("boom");
    assert_eq!(e.condition().as_str(), "amqp:decode-error");
    assert_eq!(e.description().as_str(), "boom");
    let e = AmqpError::amqp_error("amqp:internal-error", "oops");
    assert_eq!(e.condition().as_str(), "amqp:internal-error");
}

#[test]
fn symbol_vector_conversion() {
    let arr = Value::Array(vec![
        Value::Symbol(Symbol::from_str("a")),
        Value::Symbol(Symbol::from_str("b")),
    ]);
    let syms = <Vec<Symbol> as TryFromValue>::try_from(arr).unwrap();
    assert_eq!(syms, vec![Symbol::from_str("a"), Symbol::from_str("b")]);

    let mixed = Value::Array(vec![
        Value::Symbol(Symbol::from_str("a")),
        Value::Uint(1),
    ]);
    assert!(<Vec<Symbol> as TryFromValue>::try_from(mixed).is_err());
    assert!(<Vec<Symbol> as TryFromValue>::try_from(Value::Uint(1)).is_err());
}

#[test]
fn vector_encoders_match_array_encoding() {
    let syms = vec![Symbol::from_str("ab"), Symbol::from_str("cd")];
    let mut via_vec: Vec<u8> = Vec::new();
    syms.encode(&mut via_vec).unwrap();
    let arr = Value::Array(vec![
        Value::Symbol(Symbol::from_str("ab")),
        Value::Symbol(Symbol::from_str("cd")),
    ]);
    let mut via_value: Vec<u8> = Vec::new();
    arr.encode(&mut via_value).unwrap();
    assert_eq!(via_vec, via_value);

    let strs = vec![String::from("xy"), String::from("zw")];
    let mut via_vec: Vec<u8> = Vec::new();
    strs.encode(&mut via_vec).unwrap();
    let arr = Value::Array(vec![
        Value::String(String::from("xy")),
        Value::String(String::from("zw")),
    ]);
    let mut via_value: Vec<u8> = Vec::new();
    arr.encode(&mut via_value).unwrap();
    assert_eq!(via_vec, via_value);
}
