use libcgroups::systemd::dbus_native::serialize::{Variant, WireError};
use libcgroups::systemd::dbus_native::wire::{MAX_ARRAY_BYTES, MAX_FIELDS, MAX_NESTING};

fn bytes_of(value: &Variant) -> Vec<u8> {
    let mut buf = Vec::new();
    value.serialize(&mut buf).unwrap();
    buf
}

fn read_from(buf: &[u8]) -> Result<Variant, WireError> {
    let mut counter = 0;
    Variant::deserialize(buf, &mut counter)
}

fn nested(levels: usize) -> Variant {
    let mut value = Variant::U32(7);
    for _ in 0..levels {
        value = Variant::Array(vec![value]);
    }
    value
}

fn there_and_back(value: Variant) {
    for before in 0..9usize {
        let mut buf = vec![0xaau8; before];
        value.serialize(&mut buf).unwrap();
        let end = buf.len();
        buf.extend_from_slice(&[0x55, 0x55, 0x55]);
        let mut counter = before;
        let back = Variant::deserialize(&buf, &mut counter).unwrap();
        assert_eq!(back, value);
        assert_eq!(counter, end);
    }
    assert_eq!(value.recast(), Ok(value.clone()));
}

#[test]
fn wire_form_of_u64() {
    assert_eq!(
        bytes_of(&Variant::U64(10)),
        vec![1, b't', 0, 0, 0, 0, 0, 0, 10, 0, 0, 0, 0, 0, 0, 0]
    );
    assert_eq!(
        bytes_of(&Variant::U64(u64::MAX)),
        vec![1, b't', 0, 0, 0, 0, 0, 0, 255, 255, 255, 255, 255, 255, 255, 255]
    );
    assert_eq!(
        bytes_of(&Variant::U64(0x0102_0304_0506_0708)),
        vec![1, b't', 0, 0, 0, 0, 0, 0, 8, 7, 6, 5, 4, 3, 2, 1]
    );
}

#[test]
fn wire_form_of_u32() {
    assert_eq!(
        bytes_of(&Variant::U32(0x0102_0304)),
        vec![1, b'u', 0, 0, 4, 3, 2, 1]
    );
    assert_eq!(bytes_of(&Variant::U32(0)), vec![1, b'u', 0, 0, 0, 0, 0, 0]);
}

#[test]
fn wire_form_of_signed_integers() {
    assert_eq!(
        bytes_of(&Variant::I32(-1)),
        vec![1, b'i', 0, 0, 255, 255, 255, 255]
    );
    assert_eq!(
        bytes_of(&Variant::I32(i32::MIN)),
        vec![1, b'i', 0, 0, 0, 0, 0, 128]
    );
    assert_eq!(bytes_of(&Variant::I32(5)), vec![1, b'i', 0, 0, 5, 0, 0, 0]);
    assert_eq!(
        bytes_of(&Variant::I64(-2)),
        vec![1, b'x', 0, 0, 0, 0, 0, 0, 254, 255, 255, 255, 255, 255, 255, 255]
    );
    assert_eq!(
        bytes_of(&Variant::I64(i64::MAX)),
        vec![1, b'x', 0, 0, 0, 0, 0, 0, 255, 255, 255, 255, 255, 255, 255, 127]
    );
}

#[test]
fn wire_form_of_bool() {
    assert_eq!(bytes_of(&Variant::Bool(true)), vec![1, b'b', 0, 0, 1, 0, 0, 0]);
    assert_eq!(bytes_of(&Variant::Bool(false)), vec![1, b'b', 0, 0, 0, 0, 0, 0]);
}

#[test]
fn wire_form_of_string() {
    assert_eq!(
        bytes_of(&Variant::String("hi".to_string())),
        vec![1, b's', 0, 0, 2, 0, 0, 0, b'h', b'i', 0]
    );
    assert_eq!(
        bytes_of(&Variant::String(String::new())),
        vec![1, b's', 0, 0, 0, 0, 0, 0, 0]
    );
    assert_eq!(
        bytes_of(&Variant::String("\u{fc}".to_string())),
        vec![1, b's', 0, 0, 2, 0, 0, 0, 0xc3, 0xbc, 0]
    );
}

#[test]
fn wire_form_of_array() {
    assert_eq!(
        bytes_of(&Variant::Array(vec![Variant::U32(1)])),
        vec![2, b'a', b'v', 0, 8, 0, 0, 0, 1, b'u', 0, 0, 1, 0, 0, 0]
    );
    assert_eq!(
        bytes_of(&Variant::Array(vec![])),
        vec![2, b'a', b'v', 0, 0, 0, 0, 0]
    );
    assert_eq!(
        bytes_of(&Variant::Array(vec![Variant::Bool(true), Variant::U64(2)])),
        vec![
            2, b'a', b'v', 0, 24, 0, 0, 0, 1, b'b', 0, 0, 1, 0, 0, 0, 1, b't', 0, 0, 0, 0, 0,
            0, 2, 0, 0, 0, 0, 0, 0, 0
        ]
    );
}

#[test]
fn wire_form_of_struct() {
    assert_eq!(
        bytes_of(&Variant::Struct(vec![
            Variant::Bool(true),
            Variant::String("a".to_string())
        ])),
        vec![
            4, b'(', b'v', b'v', b')', 0, 0, 0, 1, b'b', 0, 0, 1, 0, 0, 0, 1, b's', 0, 0, 1, 0,
            0, 0, b'a', 0
        ]
    );
    assert_eq!(
        bytes_of(&Variant::Struct(vec![Variant::U32(9)])),
        vec![3, b'(', b'v', b')', 0, 0, 0, 0, 1, b'u', 0, 0, 9, 0, 0, 0]
    );
}

#[test]
fn padding_counts_from_the_start_of_the_buffer() {
    let mut buf = vec![0xaa];
    Variant::U32(1).serialize(&mut buf).unwrap();
    assert_eq!(buf, vec![0xaa, 1, b'u', 0, 1, 0, 0, 0]);

    let mut buf = vec![0xaa];
    Variant::U64(1).serialize(&mut buf).unwrap();
    assert_eq!(
        buf,
        vec![0xaa, 1, b't', 0, 0, 0, 0, 0, 1, 0, 0, 0, 0, 0, 0, 0]
    );

    let mut buf = vec![0xaa, 0xbb];
    Variant::U32(1).serialize(&mut buf).unwrap();
    assert_eq!(buf, vec![0xaa, 0xbb, 1, b'u', 0, 0, 0, 0, 1, 0, 0, 0]);
}

#[test]
fn serialize_appends() {
    let mut buf = Vec::new();
    Variant::Bool(true).serialize(&mut buf).unwrap();
    Variant::U32(3).serialize(&mut buf).unwrap();
    assert_eq!(
        buf,
        vec![1, b'b', 0, 0, 1, 0, 0, 0, 1, b'u', 0, 0, 3, 0, 0, 0]
    );
    let mut counter = 0;
    assert_eq!(Variant::deserialize(&buf, &mut counter), Ok(Variant::Bool(true)));
    assert_eq!(counter, 8);
    assert_eq!(Variant::deserialize(&buf, &mut counter), Ok(Variant::U32(3)));
    assert_eq!(counter, 16);
    assert_eq!(
        Variant::deserialize(&buf, &mut counter),
        Err(WireError::Malformed)
    );
    assert_eq!(counter, 16);
}

#[test]
fn round_trip_of_scalars() {
    for value in [0u32, 1, 255, 256, 65_535, 65_536, 0x00ff_ffff, 0x0100_0000, u32::MAX] {
        there_and_back(Variant::U32(value));
    }
    for value in [0u64, 1, 10, 0xffff_ffff, 0x1_0000_0000, u64::MAX - 1, u64::MAX] {
        there_and_back(Variant::U64(value));
    }
    for value in [i32::MIN, i32::MIN + 1, -500, -1, 0, 1, 500, i32::MAX] {
        there_and_back(Variant::I32(value));
    }
    for value in [i64::MIN, i64::MIN + 1, -500, -1, 0, 1, 500, i64::MAX] {
        there_and_back(Variant::I64(value));
    }
    there_and_back(Variant::Bool(true));
    there_and_back(Variant::Bool(false));
}

#[test]
fn round_trip_keeps_the_tag() {
    assert_eq!(Variant::U32(1).recast(), Ok(Variant::U32(1)));
    assert_ne!(Variant::U32(1).recast(), Ok(Variant::U64(1)));
    assert_ne!(Variant::U32(1).recast(), Ok(Variant::I32(1)));
    assert_ne!(Variant::U32(1).recast(), Ok(Variant::Bool(true)));
    assert_ne!(Variant::I64(1).recast(), Ok(Variant::U64(1)));
    assert_ne!(
        Variant::Array(vec![Variant::U32(1)]).recast(),
        Ok(Variant::Struct(vec![Variant::U32(1)]))
    );
}

#[test]
fn round_trip_of_strings() {
    there_and_back(Variant::String(String::new()));
    there_and_back(Variant::String("TasksMax".to_string()));
    there_and_back(Variant::String("gr\u{fc}n \u{2713} \u{1f600}".to_string()));
    there_and_back(Variant::String("with\0zero".to_string()));
    there_and_back(Variant::String("x".repeat(1000)));
}

#[test]
fn round_trip_of_compound_values() {
    there_and_back(Variant::Array(vec![]));
    there_and_back(Variant::Array(vec![
        Variant::U32(1),
        Variant::U64(2),
        Variant::String("three".to_string()),
    ]));
    there_and_back(Variant::Struct(vec![Variant::Array(vec![])]));
    there_and_back(Variant::Struct(vec![
        Variant::String("rwm".to_string()),
        Variant::Array(vec![
            Variant::Struct(vec![Variant::U64(8), Variant::I64(-8)]),
            Variant::Struct(vec![Variant::Bool(false)]),
        ]),
        Variant::I32(-1),
    ]));
}

#[test]
fn nesting_up_to_the_limit() {
    assert_eq!(MAX_NESTING, 64);
    there_and_back(nested(1));
    there_and_back(nested(MAX_NESTING));
}

#[test]
fn nesting_beyond_the_limit_is_refused() {
    let mut buf = vec![1, 2, 3];
    assert_eq!(
        nested(MAX_NESTING + 1).serialize(&mut buf),
        Err(WireError::Unencodable)
    );
    assert_eq!(buf, vec![1, 2, 3]);
    assert_eq!(nested(MAX_NESTING + 1).recast(), Err(WireError::Unencodable));
}

#[test]
fn struct_without_fields_is_refused() {
    let mut buf = Vec::new();
    assert_eq!(
        Variant::Struct(vec![]).serialize(&mut buf),
        Err(WireError::Unencodable)
    );
    assert!(buf.is_empty());
}

#[test]
fn struct_with_too_many_fields_is_refused() {
    assert_eq!(MAX_FIELDS, 253);
    let fields: Vec<Variant> = (0..254).map(|i| Variant::U32(i)).collect();
    let mut buf = vec![9];
    assert_eq!(
        Variant::Struct(fields).serialize(&mut buf),
        Err(WireError::Unencodable)
    );
    assert_eq!(buf, vec![9]);
}

#[test]
fn struct_with_the_most_fields() {
    let fields: Vec<Variant> = (0..253).map(|i| Variant::U32(i)).collect();
    let value = Variant::Struct(fields);
    let bytes = bytes_of(&value);
    assert_eq!(bytes[0], 255);
    assert_eq!(bytes[1], b'(');
    assert_eq!(bytes[254], b'v');
    assert_eq!(bytes[255], b')');
    assert_eq!(bytes[256], 0);
    there_and_back(value);
}

#[test]
fn a_failed_write_leaves_the_buffer_as_it_was() {
    let value = Variant::Array(vec![
        Variant::U32(1),
        Variant::String("kept out".to_string()),
        Variant::Struct(vec![]),
    ]);
    let mut buf = vec![7, 7];
    assert_eq!(value.serialize(&mut buf), Err(WireError::Unencodable));
    assert_eq!(buf, vec![7, 7]);
}

#[test]
fn array_over_the_size_limit_is_refused() {
    assert_eq!(MAX_ARRAY_BYTES, 64 * 1024 * 1024);
    let item = Variant::String("x".repeat(1024 * 1024));
    let under: Vec<Variant> = (0..63).map(|_| item.clone()).collect();
    let over: Vec<Variant> = (0..64).map(|_| item.clone()).collect();
    let mut buf = Vec::new();
    assert_eq!(Variant::Array(under).serialize(&mut buf), Ok(()));
    let mut buf = Vec::new();
    assert_eq!(
        Variant::Array(over).serialize(&mut buf),
        Err(WireError::Unencodable)
    );
    assert!(buf.is_empty());
}

#[test]
fn reading_nothing_fails() {
    assert_eq!(read_from(&[]), Err(WireError::Malformed));
    let mut counter = 5;
    assert_eq!(
        Variant::deserialize(&[1, b'u'], &mut counter),
        Err(WireError::Malformed)
    );
    assert_eq!(counter, 5);
}

#[test]
fn reading_an_unknown_signature_fails() {
    assert_eq!(
        read_from(&[1, b'q', 0, 0, 1, 0, 0, 0]),
        Err(WireError::Malformed)
    );
    assert_eq!(
        read_from(&[0, 0, 0, 0, 1, 0, 0, 0]),
        Err(WireError::Malformed)
    );
    assert_eq!(
        read_from(&[2, b'a', b'u', 0, 0, 0, 0, 0]),
        Err(WireError::Malformed)
    );
    assert_eq!(
        read_from(&[2, b'(', b')', 0, 0, 0, 0, 0]),
        Err(WireError::Malformed)
    );
    assert_eq!(
        read_from(&[3, b'(', b'u', b')', 0, 0, 0, 0, 1, b'u', 0, 0, 9, 0, 0, 0]),
        Err(WireError::Malformed)
    );
    assert_eq!(
        read_from(&[3, b'(', b'v', b'v', 0, 0, 0, 0, 1, b'u', 0, 0, 9, 0, 0, 0]),
        Err(WireError::Malformed)
    );
    assert_eq!(
        read_from(&[3, b'[', b'v', b')', 0, 0, 0, 0, 1, b'u', 0, 0, 9, 0, 0, 0]),
        Err(WireError::Malformed)
    );
}

#[test]
fn reading_a_signature_without_its_end_fails() {
    assert_eq!(
        read_from(&[1, b'u', 1, 0, 1, 0, 0, 0]),
        Err(WireError::Malformed)
    );
    assert_eq!(read_from(&[1, b'u']), Err(WireError::Malformed));
    assert_eq!(read_from(&[1]), Err(WireError::Malformed));
}

#[test]
fn reading_padding_that_is_not_zero_fails() {
    assert_eq!(
        read_from(&[1, b'u', 0, 9, 1, 0, 0, 0]),
        Err(WireError::Malformed)
    );
    assert_eq!(
        read_from(&[1, b't', 0, 0, 0, 0, 0, 1, 10, 0, 0, 0, 0, 0, 0, 0]),
        Err(WireError::Malformed)
    );
    assert_eq!(read_from(&[1, b't', 0, 0, 0]), Err(WireError::Malformed));
}

#[test]
fn reading_a_truncated_value_fails() {
    let whole = bytes_of(&Variant::U64(10));
    for end in 0..whole.len() {
        let mut counter = 0;
        assert_eq!(
            Variant::deserialize(&whole[..end], &mut counter),
            Err(WireError::Malformed)
        );
        assert_eq!(counter, 0);
    }
    let whole = bytes_of(&Variant::Struct(vec![
        Variant::String("abc".to_string()),
        Variant::Array(vec![Variant::U32(1), Variant::Bool(true)]),
    ]));
    for end in 0..whole.len() {
        assert_eq!(read_from(&whole[..end]), Err(WireError::Malformed));
    }
    assert!(read_from(&whole).is_ok());
}

#[test]
fn reading_a_bool_that_is_neither_zero_nor_one_fails() {
    assert_eq!(
        read_from(&[1, b'b', 0, 0, 2, 0, 0, 0]),
        Err(WireError::Malformed)
    );
    assert_eq!(
        read_from(&[1, b'b', 0, 0, 1, 1, 0, 0]),
        Err(WireError::Malformed)
    );
    assert_eq!(
        read_from(&[1, b'b', 0, 0, 1, 0, 0, 0]),
        Ok(Variant::Bool(true))
    );
}

#[test]
fn reading_a_string_that_is_not_utf8_fails() {
    assert_eq!(
        read_from(&[1, b's', 0, 0, 2, 0, 0, 0, 0xff, 0xfe, 0]),
        Err(WireError::Malformed)
    );
    assert_eq!(
        read_from(&[1, b's', 0, 0, 1, 0, 0, 0, 0xc3, 0]),
        Err(WireError::Malformed)
    );
    assert_eq!(
        read_from(&[1, b's', 0, 0, 3, 0, 0, 0, 0xed, 0xa0, 0x80, 0]),
        Err(WireError::Malformed)
    );
    assert_eq!(
        read_from(&[1, b's', 0, 0, 2, 0, 0, 0, 0xc3, 0xbc, 0]),
        Ok(Variant::String("\u{fc}".to_string()))
    );
}

#[test]
fn reading_a_string_without_its_end_fails() {
    assert_eq!(
        read_from(&[1, b's', 0, 0, 2, 0, 0, 0, b'h', b'i', 1]),
        Err(WireError::Malformed)
    );
    assert_eq!(
        read_from(&[1, b's', 0, 0, 2, 0, 0, 0, b'h', b'i']),
        Err(WireError::Malformed)
    );
    assert_eq!(
        read_from(&[1, b's', 0, 0, 200, 0, 0, 0, b'h', b'i', 0]),
        Err(WireError::Malformed)
    );
    assert_eq!(
        read_from(&[1, b's', 0, 0, 255, 255, 255, 255, b'h', b'i', 0]),
        Err(WireError::Malformed)
    );
}

#[test]
fn reading_an_array_whose_length_is_wrong_fails() {
    let good = [2, b'a', b'v', 0, 8, 0, 0, 0, 1, b'u', 0, 0, 1, 0, 0, 0];
    assert_eq!(read_from(&good), Ok(Variant::Array(vec![Variant::U32(1)])));
    let mut long = good;
    long[4] = 9;
    assert_eq!(read_from(&long), Err(WireError::Malformed));
    let mut short = good;
    short[4] = 7;
    assert_eq!(read_from(&short), Err(WireError::Malformed));
    let mut cut = good;
    cut[4] = 4;
    assert_eq!(read_from(&cut), Err(WireError::Malformed));
    let mut huge = good;
    huge[7] = 4;
    huge[4] = 1;
    assert_eq!(read_from(&huge), Err(WireError::Malformed));
}

#[test]
fn reading_ignores_what_follows_the_value() {
    let buf = [1, b'u', 0, 0, 1, 0, 0, 0, 0xde, 0xad];
    let mut counter = 0;
    assert_eq!(Variant::deserialize(&buf, &mut counter), Ok(Variant::U32(1)));
    assert_eq!(counter, 8);
}

#[test]
fn reading_too_deep_a_nesting_fails() {
    let mut buf = Vec::new();
    let levels = MAX_NESTING + 1;
    for level in 0..levels {
        let rest = 8 * (levels - level - 1) + 8;
        buf.extend_from_slice(&[2, b'a', b'v', 0]);
        buf.extend_from_slice(&(rest as u32).to_le_bytes());
    }
    buf.extend_from_slice(&[1, b'u', 0, 0, 7, 0, 0, 0]);
    assert_eq!(read_from(&buf), Err(WireError::Malformed));
    assert_eq!(read_from(&buf[8..]), Ok(nested(MAX_NESTING)));
    assert_eq!(buf[8..].to_vec(), bytes_of(&nested(MAX_NESTING)));
}
