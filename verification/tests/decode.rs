use protodecode::Span;
use protodecode::arraypool::ArrayPool;
use protodecode::de::compute_default_value_for_field;
use protodecode::descriptor::{
    DefaultValue, Descriptors, EnumDescriptor, EnumValueDescriptor, FieldDescriptor, FieldLabel,
    FieldType, MessageDescriptor,
};
use protodecode::error::Error;
use protodecode::util::retain_last_by_key;
use protodecode::value::{Field, SingleFieldValue};
use protodecode::visit::{DeserializerBuilder, FieldOutput, MapEntry, ResolvedValue};

fn fd(
    number: u32,
    name: &str,
    label: FieldLabel,
    field_type: FieldType,
    default_value: Option<DefaultValue>,
) -> FieldDescriptor {
    FieldDescriptor { number, name: name.to_string(), label, field_type, default_value }
}

fn one_message(fields: Vec<FieldDescriptor>) -> Descriptors {
    Descriptors {
        messages: vec![MessageDescriptor { name: ".test.Main".to_string(), fields }],
        enums: vec![],
    }
}

fn decode(descs: &Descriptors, bytes: &[u8]) -> Result<Vec<MapEntry>, Error> {
    let mut de = DeserializerBuilder::new(0);
    de.for_input(descs, bytes)
}

#[test]
fn example_int32_field_decodes_to_map() {
    // The bytes [8, 42] against field number 1 declared int32 "a" decode
    // to the map {"a": 42}.
    let descs = one_message(vec![fd(1, "a", FieldLabel::Required, FieldType::Int32, None)]);
    let entries = decode(&descs, &[8, 42]).unwrap();
    assert_eq!(entries.len(), 1);
    assert_eq!(descs.messages[0].fields[entries[0].field].name, "a");
    assert_eq!(entries[0].output, FieldOutput::Single(ResolvedValue::I32(42)));
}

#[test]
fn for_named_message_finds_and_rejects() {
    let descs = one_message(vec![fd(1, "a", FieldLabel::Required, FieldType::Int32, None)]);
    let mut de = DeserializerBuilder::for_named_message(&descs, &".test.Main".to_string()).unwrap();
    let entries = de.for_input(&descs, &[8, 42]).unwrap();
    assert_eq!(entries[0].output, FieldOutput::Single(ResolvedValue::I32(42)));
    let missing = DeserializerBuilder::for_named_message(&descs, &".test.Other".to_string());
    assert_eq!(missing.err().unwrap(), Error::UnresolvedType);
}

#[test]
fn last_occurrence_of_singular_field_wins() {
    let descs = one_message(vec![fd(1, "a", FieldLabel::Required, FieldType::Int32, None)]);
    let entries = decode(&descs, &[8, 1, 8, 42]).unwrap();
    assert_eq!(entries[0].output, FieldOutput::Single(ResolvedValue::I32(42)));
}

#[test]
fn repeated_field_accumulates_in_wire_order() {
    let descs = one_message(vec![fd(1, "xs", FieldLabel::Repeated, FieldType::Int32, None)]);
    let entries = decode(&descs, &[8, 1, 8, 2, 8, 3]).unwrap();
    assert_eq!(entries.len(), 1);
    assert_eq!(
        entries[0].output,
        FieldOutput::Repeated(vec![
            ResolvedValue::I32(1),
            ResolvedValue::I32(2),
            ResolvedValue::I32(3),
        ])
    );
}

#[test]
fn repeated_field_without_occurrences_is_an_empty_sequence() {
    // A declared repeated field is pre-seeded: with no wire occurrences it
    // still appears, as an empty sequence.
    let descs = one_message(vec![fd(1, "xs", FieldLabel::Repeated, FieldType::Int32, None)]);
    let entries = decode(&descs, &[]).unwrap();
    assert_eq!(entries.len(), 1);
    assert_eq!(entries[0].output, FieldOutput::Repeated(vec![]));
}

#[test]
fn omitted_required_int32_yields_zero() {
    let descs = one_message(vec![fd(1, "a", FieldLabel::Required, FieldType::Int32, None)]);
    let entries = decode(&descs, &[]).unwrap();
    assert_eq!(entries[0].output, FieldOutput::Single(ResolvedValue::I32(0)));
}

#[test]
fn omitted_optional_field_is_absent() {
    let descs = one_message(vec![fd(1, "a", FieldLabel::Optional, FieldType::Int32, None)]);
    let entries = decode(&descs, &[]).unwrap();
    assert_eq!(entries[0].output, FieldOutput::Absent);
}

#[test]
fn omitted_field_with_explicit_default_yields_that_default() {
    let descs = one_message(vec![fd(
        1,
        "a",
        FieldLabel::Optional,
        FieldType::Int32,
        Some(DefaultValue::I32(7)),
    )]);
    let entries = decode(&descs, &[]).unwrap();
    assert_eq!(entries[0].output, FieldOutput::Present(ResolvedValue::I32(7)));
}

#[test]
fn present_optional_field_is_present() {
    let descs = one_message(vec![fd(1, "a", FieldLabel::Optional, FieldType::Int32, None)]);
    let entries = decode(&descs, &[8, 5]).unwrap();
    assert_eq!(entries[0].output, FieldOutput::Present(ResolvedValue::I32(5)));
}

#[test]
fn unknown_field_numbers_are_skipped_and_never_surface() {
    let descs = one_message(vec![fd(1, "a", FieldLabel::Required, FieldType::Int32, None)]);
    // field 2 varint, field 3 length-delimited, then the declared field 1
    let entries = decode(&descs, &[16, 99, 26, 2, 0xde, 0xad, 8, 5]).unwrap();
    assert_eq!(entries.len(), 1);
    assert_eq!(descs.messages[0].fields[entries[0].field].name, "a");
    assert_eq!(entries[0].output, FieldOutput::Single(ResolvedValue::I32(5)));
}

#[test]
fn singular_records_come_tag_sorted() {
    let descs = one_message(vec![
        fd(3, "c", FieldLabel::Required, FieldType::Int32, None),
        fd(1, "a", FieldLabel::Required, FieldType::Int32, None),
    ]);
    let entries = decode(&descs, &[24, 9, 8, 5]).unwrap();
    assert_eq!(descs.messages[0].fields[entries[0].field].name, "a");
    assert_eq!(descs.messages[0].fields[entries[1].field].name, "c");
    assert_eq!(entries[0].output, FieldOutput::Single(ResolvedValue::I32(5)));
    assert_eq!(entries[1].output, FieldOutput::Single(ResolvedValue::I32(9)));
}

fn enum_descs() -> Descriptors {
    Descriptors {
        messages: vec![MessageDescriptor {
            name: ".test.Main".to_string(),
            fields: vec![fd(1, "e", FieldLabel::Required, FieldType::Enum(0), None)],
        }],
        enums: vec![EnumDescriptor {
            name: ".test.Color".to_string(),
            values: vec![
                EnumValueDescriptor { number: 0, name: "RED".to_string() },
                EnumValueDescriptor { number: 2, name: "BLUE".to_string() },
            ],
        }],
    }
}

#[test]
fn matching_enum_number_surfaces_its_symbol_name() {
    let descs = enum_descs();
    let entries = decode(&descs, &[8, 2]).unwrap();
    match entries[0].output {
        FieldOutput::Single(ResolvedValue::EnumSymbol { enum_index, value_index }) => {
            assert_eq!(descs.enums[enum_index].values[value_index].name, "BLUE");
        },
        ref other => panic!("expected an enum symbol, got {:?}", other),
    }
}

#[test]
fn unmatched_enum_number_fails_with_unknown_enum_value() {
    let descs = enum_descs();
    let r = decode(&descs, &[8, 1]);
    assert_eq!(r.err().unwrap(), Error::UnknownEnumValue { value: 1 });
}

fn nested_descs() -> Descriptors {
    Descriptors {
        messages: vec![
            MessageDescriptor {
                name: ".test.Outer".to_string(),
                fields: vec![fd(1, "inner", FieldLabel::Required, FieldType::Message(1), None)],
            },
            MessageDescriptor {
                name: ".test.Inner".to_string(),
                fields: vec![fd(1, "x", FieldLabel::Required, FieldType::Int32, None)],
            },
        ],
        enums: vec![],
    }
}

#[test]
fn submessage_bytes_are_not_decoded_until_visited() {
    // The nested payload is malformed (a truncated varint), yet the outer
    // decode succeeds: the submessage stays an undecoded span. Only
    // decoding that span surfaces the error.
    let descs = nested_descs();
    let input: &[u8] = &[10, 1, 8];
    let entries = decode(&descs, input).unwrap();
    let (mi, data) = match entries[0].output {
        FieldOutput::Single(ResolvedValue::Message { descriptor, data }) => (descriptor, data),
        ref other => panic!("expected a lazy message, got {:?}", other),
    };
    assert_eq!(mi, 1);
    assert_eq!((data.start, data.len), (2, 1));
    let mut pool = ArrayPool::new();
    let nested = protodecode::visit::deserialize_message(
        &descs,
        mi,
        input,
        data.start,
        data.start + data.len,
        &mut pool,
    );
    assert_eq!(nested.err().unwrap(), Error::MalformedInput);
}

#[test]
fn nested_message_decodes_on_access() {
    let descs = nested_descs();
    let input: &[u8] = &[10, 2, 8, 42];
    let entries = decode(&descs, input).unwrap();
    let (mi, data) = match entries[0].output {
        FieldOutput::Single(ResolvedValue::Message { descriptor, data }) => (descriptor, data),
        ref other => panic!("expected a lazy message, got {:?}", other),
    };
    let mut pool = ArrayPool::new();
    let nested = protodecode::visit::deserialize_message(
        &descs,
        mi,
        input,
        data.start,
        data.start + data.len,
        &mut pool,
    )
    .unwrap();
    assert_eq!(nested[0].output, FieldOutput::Single(ResolvedValue::I32(42)));
}

#[test]
fn doubly_nested_messages_decode_level_by_level() {
    let descs = Descriptors {
        messages: vec![
            MessageDescriptor {
                name: ".test.Outer".to_string(),
                fields: vec![fd(1, "mid", FieldLabel::Required, FieldType::Message(1), None)],
            },
            MessageDescriptor {
                name: ".test.Middle".to_string(),
                fields: vec![fd(2, "inner", FieldLabel::Required, FieldType::Message(2), None)],
            },
            MessageDescriptor {
                name: ".test.Inner".to_string(),
                fields: vec![fd(3, "x", FieldLabel::Required, FieldType::Int32, None)],
            },
        ],
        enums: vec![],
    };
    // outer { mid { inner { x: 7 } } }
    let input: &[u8] = &[10, 4, 18, 2, 24, 7];
    let mut pool = ArrayPool::new();
    let outer =
        protodecode::visit::deserialize_message(&descs, 0, input, 0, input.len(), &mut pool)
            .unwrap();
    let (m1, d1) = match outer[0].output {
        FieldOutput::Single(ResolvedValue::Message { descriptor, data }) => (descriptor, data),
        ref other => panic!("expected a lazy message, got {:?}", other),
    };
    let middle =
        protodecode::visit::deserialize_message(&descs, m1, input, d1.start, d1.start + d1.len, &mut pool)
            .unwrap();
    let (m2, d2) = match middle[0].output {
        FieldOutput::Single(ResolvedValue::Message { descriptor, data }) => (descriptor, data),
        ref other => panic!("expected a lazy message, got {:?}", other),
    };
    let inner =
        protodecode::visit::deserialize_message(&descs, m2, input, d2.start, d2.start + d2.len, &mut pool)
            .unwrap();
    assert_eq!(inner[0].output, FieldOutput::Single(ResolvedValue::I32(7)));
}

#[test]
fn repeated_enum_field_resolves_each_symbol() {
    let mut descs = enum_descs();
    descs.messages[0].fields[0].label = FieldLabel::Repeated;
    let entries = decode(&descs, &[8, 2, 8, 0]).unwrap();
    match &entries[0].output {
        FieldOutput::Repeated(vs) => {
            let names: Vec<&str> = vs
                .iter()
                .map(|v| match v {
                    ResolvedValue::EnumSymbol { enum_index, value_index } => {
                        descs.enums[*enum_index].values[*value_index].name.as_str()
                    },
                    other => panic!("expected an enum symbol, got {:?}", other),
                })
                .collect();
            assert_eq!(names, vec!["BLUE", "RED"]);
        },
        other => panic!("expected a repeated output, got {:?}", other),
    }
}

#[test]
fn decoding_twice_yields_identical_output() {
    let descs = one_message(vec![
        fd(1, "a", FieldLabel::Required, FieldType::Int32, None),
        fd(2, "xs", FieldLabel::Repeated, FieldType::UInt64, None),
    ]);
    let bytes: &[u8] = &[8, 7, 16, 1, 16, 2];
    let first = decode(&descs, bytes).unwrap();
    // reused pool
    let mut de = DeserializerBuilder::new(0);
    let second = de.for_input(&descs, bytes).unwrap();
    let third = de.for_input(&descs, bytes).unwrap();
    assert_eq!(first, second);
    assert_eq!(second, third);
}

#[test]
fn pool_counts_reach_a_fixed_point_across_decodes() {
    let descs = one_message(vec![
        fd(1, "a", FieldLabel::Required, FieldType::Int32, None),
        fd(2, "xs", FieldLabel::Repeated, FieldType::Int32, None),
        fd(3, "ys", FieldLabel::Repeated, FieldType::Bool, None),
    ]);
    let bytes: &[u8] = &[8, 7, 16, 1, 24, 1];
    let mut de = DeserializerBuilder::new(0);
    de.for_input(&descs, bytes).unwrap();
    let singles = de.pool.stored_single_buffers();
    let fields = de.pool.stored_field_buffers();
    let repeateds = de.pool.stored_repeated_buffers();
    assert_eq!((singles, fields, repeateds), (2, 2, 1));
    for _ in 0..10 {
        de.for_input(&descs, bytes).unwrap();
        assert_eq!(de.pool.stored_single_buffers(), singles);
        assert_eq!(de.pool.stored_field_buffers(), fields);
        assert_eq!(de.pool.stored_repeated_buffers(), repeateds);
    }
}

#[test]
fn borrowed_spans_point_into_the_input_buffer() {
    let descs = one_message(vec![
        fd(1, "s", FieldLabel::Required, FieldType::Str, None),
        fd(2, "b", FieldLabel::Required, FieldType::Bytes, None),
    ]);
    let input: &[u8] = &[10, 3, b'a', b'b', b'c', 18, 2, 7, 9];
    let entries = decode(&descs, input).unwrap();
    match entries[0].output {
        FieldOutput::Single(ResolvedValue::Str(s)) => {
            assert!(s.start + s.len <= input.len());
            assert_eq!(&input[s.start..s.start + s.len], b"abc");
        },
        ref other => panic!("expected a string span, got {:?}", other),
    }
    match entries[1].output {
        FieldOutput::Single(ResolvedValue::Bytes(s)) => {
            assert!(s.start + s.len <= input.len());
            assert_eq!(&input[s.start..s.start + s.len], &[7, 9]);
        },
        ref other => panic!("expected a bytes span, got {:?}", other),
    }
}

#[test]
fn scalar_wire_types_decode_exactly() {
    let descs = one_message(vec![
        fd(1, "sint", FieldLabel::Required, FieldType::SInt32, None),
        fd(2, "fix", FieldLabel::Required, FieldType::Fixed32, None),
        fd(3, "dbl", FieldLabel::Required, FieldType::Double, None),
        fd(4, "flag", FieldLabel::Required, FieldType::Bool, None),
        fd(5, "neg", FieldLabel::Required, FieldType::Int32, None),
    ]);
    let one = 1.5f64.to_bits().to_le_bytes();
    let mut input: Vec<u8> = vec![8, 3, 21, 1, 0, 0, 0, 25];
    input.extend_from_slice(&one);
    input.extend_from_slice(&[32, 1]);
    // int32 -1 arrives as a ten-byte varint
    input.extend_from_slice(&[40, 0xff, 0xff, 0xff, 0xff, 0xff, 0xff, 0xff, 0xff, 0xff, 1]);
    let entries = decode(&descs, &input).unwrap();
    assert_eq!(entries[0].output, FieldOutput::Single(ResolvedValue::I32(-2)));
    assert_eq!(entries[1].output, FieldOutput::Single(ResolvedValue::U32(1)));
    assert_eq!(entries[2].output, FieldOutput::Single(ResolvedValue::F64(1.5f64.to_bits())));
    assert_eq!(entries[3].output, FieldOutput::Single(ResolvedValue::Bool(true)));
    assert_eq!(entries[4].output, FieldOutput::Single(ResolvedValue::I32(-1)));
}

#[test]
fn wide_scalar_wire_types_decode_exactly() {
    let descs = one_message(vec![
        fd(1, "s64", FieldLabel::Required, FieldType::SInt64, None),
        fd(2, "f64", FieldLabel::Required, FieldType::Fixed64, None),
        fd(3, "sf32", FieldLabel::Required, FieldType::SFixed32, None),
        fd(4, "flt", FieldLabel::Required, FieldType::Float, None),
        fd(5, "u", FieldLabel::Required, FieldType::UInt32, None),
        fd(6, "uu", FieldLabel::Required, FieldType::UInt64, None),
        fd(7, "i", FieldLabel::Required, FieldType::Int64, None),
        fd(8, "sf64", FieldLabel::Required, FieldType::SFixed64, None),
    ]);
    let mut input: Vec<u8> = vec![8, 5];
    input.extend_from_slice(&[17]);
    input.extend_from_slice(&0x0102030405060708u64.to_le_bytes());
    input.extend_from_slice(&[29]);
    input.extend_from_slice(&(-7i32).to_le_bytes());
    input.extend_from_slice(&[37]);
    input.extend_from_slice(&0.25f32.to_bits().to_le_bytes());
    input.extend_from_slice(&[40, 200, 1]);
    input.extend_from_slice(&[48, 210, 9]);
    input.extend_from_slice(&[56, 3]);
    input.extend_from_slice(&[65]);
    input.extend_from_slice(&(-9i64).to_le_bytes());
    let entries = decode(&descs, &input).unwrap();
    assert_eq!(entries[0].output, FieldOutput::Single(ResolvedValue::I64(-3)));
    assert_eq!(entries[1].output, FieldOutput::Single(ResolvedValue::U64(0x0102030405060708)));
    assert_eq!(entries[2].output, FieldOutput::Single(ResolvedValue::I32(-7)));
    assert_eq!(entries[3].output, FieldOutput::Single(ResolvedValue::F32(0.25f32.to_bits())));
    assert_eq!(entries[4].output, FieldOutput::Single(ResolvedValue::U32(200)));
    assert_eq!(entries[5].output, FieldOutput::Single(ResolvedValue::U64(1234)));
    assert_eq!(entries[6].output, FieldOutput::Single(ResolvedValue::I64(3)));
    assert_eq!(entries[7].output, FieldOutput::Single(ResolvedValue::I64(-9)));
}

#[test]
fn truncated_varint_is_malformed() {
    let descs = one_message(vec![fd(1, "a", FieldLabel::Required, FieldType::Int32, None)]);
    assert_eq!(decode(&descs, &[8]).err().unwrap(), Error::MalformedInput);
}

#[test]
fn length_running_past_the_buffer_is_malformed() {
    let descs = one_message(vec![fd(1, "s", FieldLabel::Required, FieldType::Str, None)]);
    assert_eq!(decode(&descs, &[10, 5, b'a']).err().unwrap(), Error::MalformedInput);
}

#[test]
fn unknown_fields_skip_by_wire_type() {
    let descs = one_message(vec![fd(1, "a", FieldLabel::Required, FieldType::Int32, None)]);
    // unknown field 2 as fixed64 (wire type 1) and as fixed32 (wire type 5)
    let input: &[u8] = &[17, 1, 2, 3, 4, 5, 6, 7, 8, 21, 1, 2, 3, 4, 8, 6];
    let entries = decode(&descs, input).unwrap();
    assert_eq!(entries[0].output, FieldOutput::Single(ResolvedValue::I32(6)));
}

#[test]
fn unknown_group_encoded_field_is_unsupported() {
    let descs = one_message(vec![fd(1, "a", FieldLabel::Required, FieldType::Int32, None)]);
    // field 2 with wire type 3 (start group)
    assert_eq!(decode(&descs, &[19]).err().unwrap(), Error::UnsupportedWireConstruct);
}

#[test]
fn invalid_wire_type_is_malformed() {
    let descs = one_message(vec![fd(1, "a", FieldLabel::Required, FieldType::Int32, None)]);
    // field 2 with wire type 6
    assert_eq!(decode(&descs, &[22]).err().unwrap(), Error::MalformedInput);
}

#[test]
fn overlong_varint_is_malformed() {
    let descs = one_message(vec![fd(1, "a", FieldLabel::Required, FieldType::UInt64, None)]);
    // eleven continuation bytes can never form a valid varint
    let input: &[u8] = &[8, 0x80, 0x80, 0x80, 0x80, 0x80, 0x80, 0x80, 0x80, 0x80, 0x80, 1];
    assert_eq!(decode(&descs, input).err().unwrap(), Error::MalformedInput);
    // a tenth byte carrying more than the one bit a u64 has left
    let input2: &[u8] = &[8, 0xff, 0xff, 0xff, 0xff, 0xff, 0xff, 0xff, 0xff, 0xff, 2];
    assert_eq!(decode(&descs, input2).err().unwrap(), Error::MalformedInput);
}

#[test]
fn maximal_varint_decodes_to_u64_max() {
    let descs = one_message(vec![fd(1, "a", FieldLabel::Required, FieldType::UInt64, None)]);
    let input: &[u8] = &[8, 0xff, 0xff, 0xff, 0xff, 0xff, 0xff, 0xff, 0xff, 0xff, 1];
    let entries = decode(&descs, input).unwrap();
    assert_eq!(entries[0].output, FieldOutput::Single(ResolvedValue::U64(u64::MAX)));
}

#[test]
fn group_typed_field_is_unsupported() {
    let descs = one_message(vec![fd(1, "g", FieldLabel::Optional, FieldType::Group, None)]);
    assert_eq!(decode(&descs, &[8, 1]).err().unwrap(), Error::UnsupportedWireConstruct);
}

#[test]
fn unresolved_type_on_the_wire_fails() {
    let descs = one_message(vec![fd(
        1,
        "m",
        FieldLabel::Optional,
        FieldType::UnresolvedMessage(".test.Missing".to_string()),
        None,
    )]);
    assert_eq!(decode(&descs, &[10, 0]).err().unwrap(), Error::UnresolvedType);
}

#[test]
fn required_unresolved_field_fails_fast_even_when_absent() {
    let descs = one_message(vec![fd(
        1,
        "m",
        FieldLabel::Required,
        FieldType::UnresolvedEnum(".test.Missing".to_string()),
        None,
    )]);
    assert_eq!(decode(&descs, &[]).err().unwrap(), Error::UnresolvedType);
}

#[test]
fn enum_default_on_non_enum_field_is_a_type_mismatch() {
    let descs = one_message(vec![fd(
        1,
        "a",
        FieldLabel::Optional,
        FieldType::Int32,
        Some(DefaultValue::Enum(0)),
    )]);
    assert_eq!(decode(&descs, &[]).err().unwrap(), Error::TypeWireMismatch);
}

#[test]
fn string_default_surfaces_as_a_descriptor_reference() {
    let descs = one_message(vec![fd(
        1,
        "s",
        FieldLabel::Optional,
        FieldType::Str,
        Some(DefaultValue::Str("fallback".to_string())),
    )]);
    let entries = decode(&descs, &[]).unwrap();
    match entries[0].output {
        FieldOutput::Present(ResolvedValue::DefaultStr { field }) => {
            match &descs.messages[0].fields[field].default_value {
                Some(DefaultValue::Str(s)) => assert_eq!(s, "fallback"),
                other => panic!("expected a string default, got {:?}", other),
            }
        },
        ref other => panic!("expected a default reference, got {:?}", other),
    }
}

#[test]
fn compute_default_follows_the_three_step_rule() {
    let explicit = fd(1, "a", FieldLabel::Required, FieldType::Int32, Some(DefaultValue::I32(3)));
    assert_eq!(
        compute_default_value_for_field(&explicit).unwrap(),
        SingleFieldValue::BorrowedDefaultValue
    );
    let optional = fd(1, "a", FieldLabel::Optional, FieldType::Int32, None);
    assert_eq!(compute_default_value_for_field(&optional).unwrap(), SingleFieldValue::Null);
    let required = fd(1, "a", FieldLabel::Required, FieldType::UInt64, None);
    assert_eq!(compute_default_value_for_field(&required).unwrap(), SingleFieldValue::U64(0));
    let message = fd(1, "a", FieldLabel::Required, FieldType::Message(0), None);
    assert_eq!(compute_default_value_for_field(&message).unwrap(), SingleFieldValue::Null);
}

#[test]
fn retain_last_by_key_keeps_the_last_of_each_run() {
    let mk = |tag: u32, v: i32| Field { descriptor: 0, tag, value: SingleFieldValue::I32(v) };
    let mut records = vec![mk(1, 10), mk(1, 11), mk(2, 20), mk(3, 30), mk(3, 31), mk(3, 32)];
    retain_last_by_key(&mut records);
    let seen: Vec<(u32, SingleFieldValue)> = records.iter().map(|f| (f.tag, f.value)).collect();
    assert_eq!(
        seen,
        vec![
            (1, SingleFieldValue::I32(11)),
            (2, SingleFieldValue::I32(20)),
            (3, SingleFieldValue::I32(32)),
        ]
    );
}

#[test]
fn pool_hands_back_released_buffers() {
    let mut pool = ArrayPool::new();
    assert_eq!(pool.stored_single_buffers(), 0);
    let mut v = pool.get_single_field_val_vec();
    v.push(SingleFieldValue::Bool(true));
    pool.return_single_field_val_vec(v);
    assert_eq!(pool.stored_single_buffers(), 1);
    let v2 = pool.get_single_field_val_vec();
    assert!(v2.is_empty());
    assert_eq!(pool.stored_single_buffers(), 0);
}

#[test]
fn span_empty_is_zero_sized() {
    let s = Span::empty();
    assert_eq!((s.start, s.len), (0, 0));
}
