use mcnbt::{ByteOrder, Tag};

#[test]
fn byte() {
    for byte_order in [ByteOrder::BigEndian, ByteOrder::LittleEndian] {
        let data = Tag::Byte(Some("foo".to_string()), 42);
        assert_eq!(
            Tag::from_bytes(data.to_bytes(byte_order).unwrap().as_slice(), byte_order).unwrap(),
            data
        );
    }
}

#[test]
fn short() {
    for byte_order in [ByteOrder::BigEndian, ByteOrder::LittleEndian] {
        let data = Tag::Short(Some("foo".to_string()), 42);
        assert_eq!(
            Tag::from_bytes(data.to_bytes(byte_order).unwrap().as_slice(), byte_order).unwrap(),
            data
        );
    }
}

#[test]
fn int_tag() {
    for byte_order in [ByteOrder::BigEndian, ByteOrder::LittleEndian] {
        let data = Tag::Int(Some("foo".to_string()), 42);
        assert_eq!(
            Tag::from_bytes(data.to_bytes(byte_order).unwrap().as_slice(), byte_order).unwrap(),
            data
        );
    }
}

#[test]
fn long() {
    for byte_order in [ByteOrder::BigEndian, ByteOrder::LittleEndian] {
        let data = Tag::Long(Some("foo".to_string()), 42);
        assert_eq!(
            Tag::from_bytes(data.to_bytes(byte_order).unwrap().as_slice(), byte_order).unwrap(),
            data
        );
    }
}

#[test]
fn float() {
    for byte_order in [ByteOrder::BigEndian, ByteOrder::LittleEndian] {
        let data = Tag::Float(Some("foo".to_string()), 42.69f32.to_bits());
        assert_eq!(
            Tag::from_bytes(data.to_bytes(byte_order).unwrap().as_slice(), byte_order).unwrap(),
            data
        );
    }
}

#[test]
fn double() {
    for byte_order in [ByteOrder::BigEndian, ByteOrder::LittleEndian] {
        let data = Tag::Double(Some("foo".to_string()), 42.69f64.to_bits());
        assert_eq!(
            Tag::from_bytes(data.to_bytes(byte_order).unwrap().as_slice(), byte_order).unwrap(),
            data
        );
    }
}

#[test]
fn byte_array() {
    for byte_order in [ByteOrder::BigEndian, ByteOrder::LittleEndian] {
        let data = Tag::ByteArray(Some("foo".to_string()), vec![42, 69, 127]);
        assert_eq!(
            Tag::from_bytes(data.to_bytes(byte_order).unwrap().as_slice(), byte_order).unwrap(),
            data
        );
    }
}

#[test]
fn string() {
    for byte_order in [ByteOrder::BigEndian, ByteOrder::LittleEndian] {
        let data = Tag::String(Some("foo".to_string()), String::from("Hello World"));
        assert_eq!(
            Tag::from_bytes(data.to_bytes(byte_order).unwrap().as_slice(), byte_order).unwrap(),
            data
        );
    }
}

#[test]
fn list() {
    for byte_order in [ByteOrder::BigEndian, ByteOrder::LittleEndian] {
        let data = Tag::List(
            Some("foo".to_string()),
            vec![Tag::Byte(None, 1), Tag::Byte(None, 2), Tag::Byte(None, 3)],
        );
        assert_eq!(
            Tag::from_bytes(data.to_bytes(byte_order).unwrap().as_slice(), byte_order).unwrap(),
            data
        );
    }
}

#[test]
fn compound() {
    for byte_order in [ByteOrder::BigEndian, ByteOrder::LittleEndian] {
        let data = Tag::Compound(
            Some("foo".to_string()),
            vec![
                Tag::Byte(Some("x".to_string()), 1),
                Tag::Byte(Some("y".to_string()), 2),
                Tag::Byte(Some("z".to_string()), 3),
            ],
        );
        assert_eq!(
            Tag::from_bytes(data.to_bytes(byte_order).unwrap().as_slice(), byte_order).unwrap(),
            data
        );
    }
}

#[test]
fn int_array() {
    for byte_order in [ByteOrder::BigEndian, ByteOrder::LittleEndian] {
        let data = Tag::IntArray(Some("foo".to_string()), vec![42, 69, 420]);
        assert_eq!(
            Tag::from_bytes(data.to_bytes(byte_order).unwrap().as_slice(), byte_order).unwrap(),
            data
        );
    }
}

#[test]
fn long_array() {
    for byte_order in [ByteOrder::BigEndian, ByteOrder::LittleEndian] {
        let data = Tag::LongArray(Some("foo".to_string()), vec![42, 69, 420]);
        assert_eq!(
            Tag::from_bytes(data.to_bytes(byte_order).unwrap().as_slice(), byte_order).unwrap(),
            data
        );
    }
}
