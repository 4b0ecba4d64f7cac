use mcnbt::{ByteOrder, Error, ParseErrorKind, Tag};

fn name(s: &str) -> Option<String> {
    Some(s.to_string())
}

fn round_trip(data: &Tag) {
    for byte_order in [ByteOrder::BigEndian, ByteOrder::LittleEndian] {
        let bytes = data.to_bytes(byte_order).unwrap();
        assert_eq!(Tag::from_bytes(&bytes, byte_order).unwrap(), *data);
    }
}

#[test]
fn fixture_little_endian_compound() {
    let data = Tag::Compound(name(""), vec![Tag::Int(name("format_version"), 1)]);
    let expected: Vec<u8> = vec![
        0x0A, 0x00, 0x00, 0x03, 0x0E, 0x00, 0x66, 0x6F, 0x72, 0x6D, 0x61, 0x74, 0x5F, 0x76,
        0x65, 0x72, 0x73, 0x69, 0x6F, 0x6E, 0x01, 0x00, 0x00, 0x00, 0x00,
    ];
    assert_eq!(data.to_bytes(ByteOrder::LittleEndian).unwrap(), expected);
}

#[test]
fn root_builder_matches_fixture() {
    let data = Tag::root(vec![Tag::Int(name("format_version"), 1)]);
    assert_eq!(data, Tag::Compound(name(""), vec![Tag::Int(name("format_version"), 1)]));
}

#[test]
fn big_endian_string_decodes_to_itself() {
    let data = Tag::String(name("hello"), "world".to_string());
    let bytes = data.to_bytes(ByteOrder::BigEndian).unwrap();
    assert_eq!(
        bytes,
        vec![8, 0, 5, b'h', b'e', b'l', b'l', b'o', 0, 5, b'w', b'o', b'r', b'l', b'd']
    );
    assert_eq!(Tag::from_bytes(&bytes, ByteOrder::BigEndian).unwrap(), data);
}

#[test]
fn scalars_extremes_round_trip() {
    round_trip(&Tag::Byte(name("a"), i8::MIN));
    round_trip(&Tag::Byte(name("a"), -1));
    round_trip(&Tag::Short(name("b"), i16::MIN));
    round_trip(&Tag::Int(name("c"), i32::MIN));
    round_trip(&Tag::Int(name("c"), i32::MAX));
    round_trip(&Tag::Long(name("d"), i64::MIN));
    round_trip(&Tag::Long(name("d"), -42));
    round_trip(&Tag::Float(name("e"), (-1.5f32).to_bits()));
    round_trip(&Tag::Double(name("f"), f64::NAN.to_bits()));
}

#[test]
fn int_wire_bytes_follow_the_byte_order() {
    let data = Tag::Int(name("i"), -2);
    assert_eq!(
        data.to_bytes(ByteOrder::BigEndian).unwrap(),
        vec![3, 0, 1, b'i', 0xFF, 0xFF, 0xFF, 0xFE]
    );
    assert_eq!(
        data.to_bytes(ByteOrder::LittleEndian).unwrap(),
        vec![3, 1, 0, b'i', 0xFE, 0xFF, 0xFF, 0xFF]
    );
}

#[test]
fn non_ascii_text_round_trips() {
    let text = "Grüße, 世界 \u{0} 🎉".to_string();
    round_trip(&Tag::String(name("ключ 🔑"), text.clone()));
    let bytes = Tag::String(name(""), text).to_bytes(ByteOrder::BigEndian).unwrap();
    // the NUL becomes two bytes and the emoji six in modified UTF-8
    assert!(!bytes[5..].contains(&0));
    assert_eq!(bytes.len(), 1 + 2 + 2 + 8 + 1 + 6 + 1 + 2 + 1 + 6);
}

#[test]
fn empty_arrays_round_trip() {
    round_trip(&Tag::ByteArray(name("b"), vec![]));
    round_trip(&Tag::IntArray(name("i"), vec![]));
    round_trip(&Tag::LongArray(name("l"), vec![]));
    round_trip(&Tag::List(name("e"), vec![]));
    round_trip(&Tag::Compound(name("c"), vec![]));
    round_trip(&Tag::String(name(""), String::new()));
}

#[test]
fn empty_list_carries_end_id() {
    let bytes = Tag::List(name(""), vec![]).to_bytes(ByteOrder::BigEndian).unwrap();
    assert_eq!(bytes, vec![9, 0, 0, 0, 0, 0, 0, 0]);
}

#[test]
fn lists_of_compounds_and_nested_trees_round_trip() {
    let point = |x: i32, y: i32| {
        Tag::Compound(None, vec![Tag::Int(name("x"), x), Tag::Int(name("y"), y)])
    };
    round_trip(&Tag::List(name("points"), vec![point(1, 2), point(3, 4)]));
    round_trip(&Tag::root(vec![
        Tag::List(name("longs"), vec![Tag::Long(None, 5), Tag::Long(None, -5)]),
        Tag::Compound(
            name("inner"),
            vec![
                Tag::String(name("s"), "text".to_string()),
                Tag::IntArray(name("ia"), vec![1, -2, 3]),
                Tag::List(
                    name("lists"),
                    vec![Tag::List(None, vec![Tag::Short(None, 7)]), Tag::List(None, vec![])],
                ),
            ],
        ),
        Tag::LongArray(name("la"), vec![i64::MAX, i64::MIN]),
        Tag::Float(name("f"), 0.5f32.to_bits()),
    ]));
}

#[test]
fn duplicate_names_fail_to_decode() {
    let data = Tag::root(vec![Tag::Byte(name("x"), 1), Tag::Short(name("x"), 2)]);
    for byte_order in [ByteOrder::BigEndian, ByteOrder::LittleEndian] {
        let bytes = data.to_bytes(byte_order).unwrap();
        assert_eq!(
            Tag::from_bytes(&bytes, byte_order),
            Err(Error::ParseError(ParseErrorKind::DuplicateName))
        );
    }
}

#[test]
fn nested_duplicate_names_fail_to_decode() {
    let inner = Tag::Compound(None, vec![Tag::Byte(name("k"), 1), Tag::Byte(name("k"), 2)]);
    let data = Tag::root(vec![Tag::List(name("l"), vec![inner])]);
    let bytes = data.to_bytes(ByteOrder::BigEndian).unwrap();
    assert_eq!(
        Tag::from_bytes(&bytes, ByteOrder::BigEndian),
        Err(Error::ParseError(ParseErrorKind::DuplicateName))
    );
}

#[test]
fn truncated_buffers_are_incomplete() {
    let data = Tag::root(vec![
        Tag::Int(name("format_version"), 1),
        Tag::List(name("size"), vec![Tag::Int(None, 5), Tag::Int(None, 5)]),
        Tag::String(name("s"), "abc".to_string()),
    ]);
    let bytes = data.to_bytes(ByteOrder::LittleEndian).unwrap();
    for n in 0..bytes.len() {
        match Tag::from_bytes(&bytes[..n], ByteOrder::LittleEndian) {
            Err(Error::Incomplete(k)) => assert!(k > 0),
            other => panic!("prefix of {} bytes gave {:?}", n, other),
        }
    }
}

#[test]
fn incomplete_counts_missing_bytes() {
    let bytes = Tag::Long(name("l"), 7).to_bytes(ByteOrder::BigEndian).unwrap();
    assert_eq!(
        Tag::from_bytes(&bytes[..bytes.len() - 3], ByteOrder::BigEndian),
        Err(Error::Incomplete(3))
    );
    assert_eq!(Tag::from_bytes(&[], ByteOrder::BigEndian), Err(Error::Incomplete(1)));
}

#[test]
fn out_of_range_type_id_is_a_parse_error() {
    assert_eq!(
        Tag::from_bytes(&[13, 0, 0], ByteOrder::BigEndian),
        Err(Error::ParseError(ParseErrorKind::InvalidTypeId))
    );
    assert_eq!(
        Tag::from_bytes(&[0], ByteOrder::LittleEndian),
        Err(Error::ParseError(ParseErrorKind::InvalidTypeId))
    );
    // a list whose element type is out of range
    assert_eq!(
        Tag::from_bytes(&[9, 0, 0, 13, 0, 0, 0, 0], ByteOrder::BigEndian),
        Err(Error::ParseError(ParseErrorKind::InvalidTypeId))
    );
    // a non-empty list of end tags
    assert_eq!(
        Tag::from_bytes(&[9, 0, 0, 0, 0, 0, 0, 1], ByteOrder::BigEndian),
        Err(Error::ParseError(ParseErrorKind::InvalidTypeId))
    );
}

#[test]
fn trailing_bytes_are_a_parse_error() {
    let mut bytes = Tag::Byte(name("b"), 1).to_bytes(ByteOrder::BigEndian).unwrap();
    bytes.push(0);
    assert_eq!(
        Tag::from_bytes(&bytes, ByteOrder::BigEndian),
        Err(Error::ParseError(ParseErrorKind::TrailingBytes))
    );
}

#[test]
fn invalid_text_is_a_parse_error() {
    assert_eq!(
        Tag::from_bytes(&[8, 0, 1, 0xFF, 0, 0], ByteOrder::BigEndian),
        Err(Error::ParseError(ParseErrorKind::InvalidText))
    );
}

#[test]
fn negative_counts_read_as_empty() {
    let bytes = [7, 0, 0, 0xFF, 0xFF, 0xFF, 0xFF];
    assert_eq!(
        Tag::from_bytes(&bytes, ByteOrder::BigEndian),
        Ok(Tag::ByteArray(name(""), vec![]))
    );
}

#[test]
fn missing_names_fail_to_encode() {
    assert_eq!(Tag::Int(None, 1).to_bytes(ByteOrder::BigEndian), Err(Error::MissingName));
    let data = Tag::root(vec![Tag::Int(None, 1)]);
    assert_eq!(data.to_bytes(ByteOrder::LittleEndian), Err(Error::MissingName));
}

#[test]
fn list_elements_are_written_without_names() {
    let data = Tag::List(name(""), vec![Tag::Byte(name("ignored"), 1)]);
    let bytes = data.to_bytes(ByteOrder::BigEndian).unwrap();
    assert_eq!(bytes, vec![9, 0, 0, 1, 0, 0, 0, 1, 1]);
}

#[test]
fn long_texts_fail_to_encode() {
    let long = "a".repeat(0x1_0000);
    assert_eq!(
        Tag::String(name("s"), long.clone()).to_bytes(ByteOrder::BigEndian),
        Err(Error::StringTooBig)
    );
    assert_eq!(Tag::Byte(Some(long), 1).to_bytes(ByteOrder::BigEndian), Err(Error::StringTooBig));
    let fits = "a".repeat(0xFFFF);
    round_trip(&Tag::String(name("s"), fits));
}

#[test]
fn byte_order_bytes() {
    assert_eq!(ByteOrder::BigEndian.bytes(0x0102, 2), vec![1, 2]);
    assert_eq!(ByteOrder::LittleEndian.bytes(0x0102, 2), vec![2, 1]);
    assert_eq!(ByteOrder::LittleEndian.bytes(0x1122_3344, 4), vec![0x44, 0x33, 0x22, 0x11]);
    assert_eq!(ByteOrder::BigEndian.bytes(0x1FF, 1), vec![0xFF]);
}

#[test]
fn kind_names() {
    assert_eq!(Tag::Byte(name("foo"), 42).name(), "TAG_Byte");
    assert_eq!(Tag::ByteArray(None, vec![]).name(), "TAG_Byte_Array");
    assert_eq!(Tag::Compound(None, vec![]).name(), "TAG_Compound");
    assert_eq!(Tag::LongArray(None, vec![]).name(), "TAG_Long_Array");
}

#[test]
fn with_name_builder() {
    assert_eq!(
        Tag::Byte(None, 42).with_name("The answer"),
        Tag::Byte(name("The answer"), 42)
    );
}

#[test]
fn mixed_list_is_written_with_the_first_element_type() {
    let data = Tag::List(name(""), vec![Tag::Byte(None, 1), Tag::Short(None, 2)]);
    let bytes = data.to_bytes(ByteOrder::BigEndian).unwrap();
    assert_eq!(bytes, vec![9, 0, 0, 1, 0, 0, 0, 2, 1, 0, 2]);
    assert_ne!(Tag::from_bytes(&bytes, ByteOrder::BigEndian), Ok(data));
}

#[test]
fn duplicate_child_names_in_raw_bytes() {
    // root compound "" with two byte children both named "x"
    let bytes = [10, 0, 0, 1, 0, 1, b'x', 1, 1, 0, 1, b'x', 2, 0];
    assert_eq!(
        Tag::from_bytes(&bytes, ByteOrder::BigEndian),
        Err(Error::ParseError(ParseErrorKind::DuplicateName))
    );
}

#[test]
fn string_payload_cut_short_is_incomplete() {
    // a string that announces five bytes and holds two
    let bytes = [8, 0, 0, 0, 5, b'a', b'b'];
    assert_eq!(Tag::from_bytes(&bytes, ByteOrder::BigEndian), Err(Error::Incomplete(3)));
}
