use beamfile::cursor::BitCursor;
use beamfile::error::DecodeError;
use beamfile::instructions::{
    decode_operand_tag, encode_operand_tag, ExtendedTag, LargeInlineValue, LargeValue,
    LargerTagValue, NormalInlineValue, SmallInlineValue, Tag, TagValue,
};
use beamfile::writer::BitWriter;

fn decode_one(bytes: &[u8]) -> (Tag, BitCursor) {
    let mut cur = BitCursor::new();
    let tag = decode_operand_tag(bytes, &mut cur).unwrap();
    (tag, cur)
}

fn encode_to_bytes(tag: &Tag) -> Vec<u8> {
    let mut w = BitWriter::new();
    encode_operand_tag(tag, &mut w);
    w.finish()
}

#[test]
fn parse_external_value_test() {
    let bytes = vec![0b00011001u8, 123, 125, 127];
    let (tag, _) = decode_one(&bytes);
    let expected = Tag::Literal(TagValue::Normal(LargerTagValue::Large(
        LargeValue::LargeInline {
            size: 1,
            val: LargeInlineValue {
                data: vec![123, 125, 127],
            },
        },
    )));
    assert_eq!(expected, tag);
}

#[test]
fn large_inline_consumes_exactly_four_bytes() {
    let bytes = vec![0b00011001u8, 123, 125, 127];
    let (_, cur) = decode_one(&bytes);
    assert!(cur.is_aligned());
    assert_eq!(cur.byte_position(), 4);
}

#[test]
fn large_inline_every_size_consumes_size_plus_two() {
    for size in 0u8..=6 {
        let mut bytes = vec![0b00011000u8 | size];
        for i in 0..(size + 2) {
            bytes.push(0x40 + i);
        }
        let (tag, cur) = decode_one(&bytes);
        assert!(cur.is_aligned());
        assert_eq!(cur.byte_position() as u8, 1 + size + 2);
        match tag {
            Tag::Literal(TagValue::Normal(LargerTagValue::Large(LargeValue::LargeInline {
                size: s,
                val,
            }))) => {
                assert_eq!(s, size);
                assert_eq!(val.data.len() as u8, size + 2);
            },
            other => panic!("expected a large inline value, got {:?}", other),
        }
    }
}

#[test]
fn small_inline_value() {
    // kind 1 (Integer), selector 0, 4-bit value 5
    let (tag, cur) = decode_one(&[0b00100101]);
    assert_eq!(
        tag,
        Tag::Integer(TagValue::Small(SmallInlineValue { data: 5 }))
    );
    assert_eq!(cur.byte_position(), 1);
}

#[test]
fn normal_inline_value() {
    // kind 5 (Label), selectors 1 then 0, 11-bit value 1000
    let (tag, cur) = decode_one(&[0xB3, 0xE8]);
    assert_eq!(
        tag,
        Tag::Label(TagValue::Normal(LargerTagValue::Normal(NormalInlineValue {
            data: 1000
        })))
    );
    assert_eq!(cur.byte_position(), 2);
}

#[test]
fn external_sentinel_has_no_payload() {
    // kind 0, selectors 1 and 1, size bits 0b111
    let (tag, cur) = decode_one(&[0b00011111]);
    assert_eq!(
        tag,
        Tag::Literal(TagValue::Normal(LargerTagValue::Large(LargeValue::External)))
    );
    assert_eq!(cur.byte_position(), 1);
}

#[test]
fn extended_tags() {
    let cases: Vec<(u8, ExtendedTag)> = vec![
        (0xE2, ExtendedTag::List),
        (0xE4, ExtendedTag::FloatingPoint),
        (0xE6, ExtendedTag::AllocationList),
        (0xE8, ExtendedTag::Literal),
        (0xEA, ExtendedTag::TypeHint),
        (0xE0, ExtendedTag::Other(0)),
        (0xFF, ExtendedTag::Other(31)),
    ];
    for (byte, expected) in cases {
        let (tag, cur) = decode_one(&[byte]);
        assert_eq!(tag, Tag::Extended(expected));
        assert_eq!(cur.byte_position(), 1);
    }
}

#[test]
fn truncated_operand_leaves_cursor_unchanged() {
    let mut cur = BitCursor::new();
    let empty: Vec<u8> = Vec::new();
    assert_eq!(
        decode_operand_tag(&empty, &mut cur).unwrap_err(),
        DecodeError::Truncated
    );
    assert_eq!(cur.byte_position(), 0);
    // large inline with size 0 declares 2 payload bytes but none follow
    let short = vec![0b00011000u8];
    assert_eq!(
        decode_operand_tag(&short, &mut cur).unwrap_err(),
        DecodeError::Truncated
    );
    assert_eq!(cur.byte_position(), 0);
    assert!(cur.is_aligned());
}

#[test]
fn operand_round_trips() {
    let tags = vec![
        Tag::Literal(TagValue::Small(SmallInlineValue { data: 0 })),
        Tag::Integer(TagValue::Small(SmallInlineValue { data: 15 })),
        Tag::Atom(TagValue::Normal(LargerTagValue::Normal(NormalInlineValue {
            data: 2047,
        }))),
        Tag::XRegister(TagValue::Normal(LargerTagValue::Large(LargeValue::External))),
        Tag::YRegister(TagValue::Normal(LargerTagValue::Large(
            LargeValue::LargeInline {
                size: 0,
                val: LargeInlineValue { data: vec![1, 2] },
            },
        ))),
        Tag::Character(TagValue::Normal(LargerTagValue::Large(
            LargeValue::LargeInline {
                size: 6,
                val: LargeInlineValue {
                    data: vec![1, 2, 3, 4, 5, 6, 7, 8],
                },
            },
        ))),
        Tag::Extended(ExtendedTag::TypeHint),
        Tag::Extended(ExtendedTag::Other(21)),
    ];
    for tag in tags {
        let bytes = encode_to_bytes(&tag);
        let (decoded, cur) = decode_one(&bytes);
        assert_eq!(tag, decoded);
        assert_eq!(cur.byte_position(), bytes.len());
        assert_eq!(encode_to_bytes(&decoded), bytes);
    }
}

#[test]
fn encoder_writes_exact_bytes() {
    let tag = Tag::Literal(TagValue::Normal(LargerTagValue::Large(
        LargeValue::LargeInline {
            size: 1,
            val: LargeInlineValue {
                data: vec![123, 125, 127],
            },
        },
    )));
    assert_eq!(encode_to_bytes(&tag), vec![0b00011001, 123, 125, 127]);
    let small = Tag::Integer(TagValue::Small(SmallInlineValue { data: 5 }));
    assert_eq!(encode_to_bytes(&small), vec![0b00100101]);
}

#[test]
fn cursor_reads_bits_most_significant_first() {
    let data = vec![0xB3u8, 0xE8];
    let mut cur = BitCursor::new();
    assert_eq!(cur.read_bits(&data, 5).unwrap(), 0b10110);
    assert_eq!(cur.read_bits(&data, 11).unwrap(), 1000);
    assert!(cur.is_aligned());
    assert_eq!(
        cur.read_bits(&data, 1).unwrap_err(),
        DecodeError::Truncated
    );
}

#[test]
fn operand_decodes_mid_byte() {
    // three stray bits, then a small value packed without padding
    let data = vec![0xA0u8, 0xA0];
    let mut cur = BitCursor::new();
    assert_eq!(cur.read_bits(&data, 3).unwrap(), 0b101);
    let tag = decode_operand_tag(&data, &mut cur).unwrap();
    assert_eq!(
        tag,
        Tag::Literal(TagValue::Small(SmallInlineValue { data: 5 }))
    );
    assert!(!cur.is_aligned());
    assert_eq!(
        cur.read_bytes(&data, 1).unwrap_err(),
        DecodeError::Misaligned
    );
}

#[test]
fn writer_pads_final_byte_with_zeros() {
    let mut w = BitWriter::new();
    w.write_bits(0b101, 3);
    assert_eq!(w.bit_len(), 3);
    assert_eq!(w.finish(), vec![0xA0]);
}
