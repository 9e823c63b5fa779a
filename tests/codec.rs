use lize::{deserialize, serialize, Error, Value};

fn hello_money() -> Value<'static> {
    Value::HashMap(vec![
        (Value::Slice(b"hello"), Value::Slice(b"world")),
        (Value::Slice(b"money"), Value::I64(6969694200)),
    ])
}

#[test]
fn small_value_boundary() {
    assert_eq!(serialize(&Value::SmallU8(235)), Ok(vec![255]));
    assert_eq!(serialize(&Value::SmallU8(0)), Ok(vec![20]));
    assert_eq!(serialize(&Value::SmallU8(236)), Err(Error::InvalidSmallValue));
    assert_eq!(serialize(&Value::SmallU8(255)), Err(Error::InvalidSmallValue));
}

#[test]
fn byte_string_length_boundary() {
    let ok = vec![7u8; 255];
    let encoded = serialize(&Value::Slice(&ok)).unwrap();
    assert_eq!(encoded.len(), 257);
    assert_eq!(&encoded[..2], &[1, 255]);
    assert_eq!(&encoded[2..], &ok[..]);

    let too_long = vec![7u8; 256];
    assert_eq!(serialize(&Value::Slice(&too_long)), Err(Error::EncodeOverflow));
    assert_eq!(serialize(&Value::SliceLike(too_long.clone())), Err(Error::EncodeOverflow));
}

#[test]
fn nested_element_length_boundary() {
    // A byte string of 253 bytes encodes to 255 bytes: it still fits a frame.
    let fits = vec![1u8; 253];
    let encoded = serialize(&Value::Vector(vec![Value::Slice(&fits)])).unwrap();
    assert_eq!(encoded.len(), 1 + 1 + 255 + 1);
    assert_eq!(encoded[1], 255);

    let over = vec![1u8; 254];
    assert_eq!(serialize(&Value::Vector(vec![Value::Slice(&over)])), Err(Error::EncodeOverflow));
    assert_eq!(
        serialize(&Value::Optional(Some(Box::new(Value::Slice(&over))))),
        Err(Error::EncodeOverflow)
    );
}

#[test]
fn first_error_from_the_left_is_reported() {
    let over = vec![0u8; 300];
    let v = Value::Vector(vec![Value::SmallU8(240), Value::Slice(&over)]);
    assert_eq!(serialize(&v), Err(Error::InvalidSmallValue));
    let w = Value::Vector(vec![Value::Slice(&over), Value::SmallU8(240)]);
    assert_eq!(serialize(&w), Err(Error::EncodeOverflow));
}

#[test]
fn unknown_tags() {
    assert_eq!(deserialize(&[14]), Err(Error::UnknownTag));
    assert_eq!(deserialize(&[19]), Err(Error::UnknownTag));
    assert_eq!(deserialize(&[3]), Err(Error::UnknownTag));
    assert_eq!(deserialize(&[5]), Err(Error::UnknownTag));
    assert_eq!(deserialize(&[2, 1, 14, 3]), Err(Error::UnknownTag));
}

#[test]
fn scalar_layouts() {
    assert_eq!(serialize(&Value::I64(-1)), Ok(vec![0, 255, 255, 255, 255, 255, 255, 255, 255]));
    assert_eq!(serialize(&Value::I64(258)), Ok(vec![0, 2, 1, 0, 0, 0, 0, 0, 0]));
    assert_eq!(serialize(&Value::I32(-2)), Ok(vec![11, 254, 255, 255, 255]));
    assert_eq!(serialize(&Value::U8(200)), Ok(vec![13, 200]));
    assert_eq!(serialize(&Value::Bool(true)), Ok(vec![6]));
    assert_eq!(serialize(&Value::Bool(false)), Ok(vec![7]));
    assert_eq!(serialize(&Value::Optional(None)), Ok(vec![10]));
    let mut f64_bytes = vec![8];
    f64_bytes.extend_from_slice(&1.5f64.to_le_bytes());
    assert_eq!(serialize(&Value::F64(1.5f64.to_bits())), Ok(f64_bytes));
    let mut f32_bytes = vec![12];
    f32_bytes.extend_from_slice(&(-0.25f32).to_le_bytes());
    assert_eq!(serialize(&Value::F32((-0.25f32).to_bits())), Ok(f32_bytes));
}

#[test]
fn scalars_round_trip() {
    let values = vec![
        Value::I64(i64::MIN),
        Value::I64(i64::MAX),
        Value::I32(i32::MIN),
        Value::U8(255),
        Value::SmallU8(17),
        Value::F64(f64::NAN.to_bits()),
        Value::F32(3.5f32.to_bits()),
        Value::Bool(false),
        Value::Optional(None),
    ];
    for v in values {
        let bytes = serialize(&v).unwrap();
        assert_eq!(deserialize(&bytes), Ok(v));
    }
    let back = deserialize(&[8, 0, 0, 0, 0, 0, 0, 0xf8, 0x3f]).unwrap();
    match back {
        Value::F64(bits) => assert_eq!(f64::from_bits(bits), 1.5),
        other => panic!("not a float: {:?}", other),
    }
}

#[test]
fn association_example() {
    let v = hello_money();
    let bytes = serialize(&v).unwrap();
    let mut expected = vec![4, 7, 1, 5];
    expected.extend_from_slice(b"hello");
    expected.extend_from_slice(&[7, 1, 5]);
    expected.extend_from_slice(b"world");
    expected.extend_from_slice(&[7, 1, 5]);
    expected.extend_from_slice(b"money");
    expected.push(9);
    expected.push(0);
    expected.extend_from_slice(&6969694200i64.to_le_bytes());
    expected.push(5);
    assert_eq!(bytes, expected);

    let back = deserialize(&bytes).unwrap();
    assert_eq!(back, v);
    match back {
        Value::HashMap(pairs) => {
            assert_eq!(pairs.len(), 2);
            assert_eq!(pairs[0].0.as_slice(), Some(&b"hello"[..]));
            assert_eq!(pairs[0].1.as_slice(), Some(&b"world"[..]));
            assert_eq!(pairs[1].0.as_slice(), Some(&b"money"[..]));
            assert_eq!(pairs[1].1, Value::I64(6969694200));
        }
        other => panic!("not an association: {:?}", other),
    }
}

#[test]
fn optional_sequence_example() {
    let v = Value::Optional(Some(Box::new(Value::Vector(vec![Value::Bool(true)]))));
    let bytes = serialize(&v).unwrap();
    assert_eq!(bytes, vec![9, 4, 2, 1, 6, 3]);
    let back = deserialize(&bytes).unwrap();
    match back {
        Value::Optional(Some(inner)) => {
            assert_eq!(*inner, Value::Vector(vec![Value::Bool(true)]));
        }
        other => panic!("not a present optional: {:?}", other),
    }
}

#[test]
fn sequence_layout() {
    let v = Value::Vector(vec![Value::Bool(true), Value::U8(9), Value::Slice(b"xy")]);
    assert_eq!(serialize(&v), Ok(vec![2, 1, 6, 2, 13, 9, 4, 1, 2, b'x', b'y', 3]));
    assert_eq!(serialize(&Value::Vector(vec![])), Ok(vec![2, 3]));
    assert_eq!(serialize(&Value::HashMap(vec![])), Ok(vec![4, 5]));
    assert_eq!(deserialize(&[2, 3]), Ok(Value::Vector(vec![])));
    assert_eq!(deserialize(&[4, 5]), Ok(Value::HashMap(vec![])));
}

#[test]
fn every_strict_prefix_is_truncated() {
    let v = hello_money();
    let bytes = serialize(&v).unwrap();
    for cut in 0..bytes.len() {
        assert_eq!(deserialize(&bytes[..cut]), Err(Error::Truncated), "cut at {}", cut);
    }
    let w = Value::Optional(Some(Box::new(Value::Vector(vec![Value::Bool(true), Value::I32(5)]))));
    let wb = serialize(&w).unwrap();
    for cut in 0..wb.len() {
        assert_eq!(deserialize(&wb[..cut]), Err(Error::Truncated), "cut at {}", cut);
    }
}

#[test]
fn truncated_inputs() {
    assert_eq!(deserialize(&[]), Err(Error::Truncated));
    assert_eq!(deserialize(&[0, 1, 2]), Err(Error::Truncated));
    assert_eq!(deserialize(&[11, 1]), Err(Error::Truncated));
    assert_eq!(deserialize(&[13]), Err(Error::Truncated));
    assert_eq!(deserialize(&[1, 5, 1]), Err(Error::Truncated));
    assert_eq!(deserialize(&[9, 2, 6]), Err(Error::Truncated));
    assert_eq!(deserialize(&[2, 1, 6]), Err(Error::Truncated));
    assert_eq!(deserialize(&[4, 1, 6]), Err(Error::Truncated));
}

#[test]
fn trailing_bytes_are_rejected() {
    assert_eq!(deserialize(&[6, 0]), Err(Error::TrailingBytes));
    assert_eq!(deserialize(&[2, 2, 6, 0, 3]), Err(Error::TrailingBytes));
    assert_eq!(deserialize(&[9, 2, 7, 7]), Err(Error::TrailingBytes));
}

#[test]
fn reencoding_reproduces_bytes() {
    let inputs: Vec<Vec<u8>> = vec![
        vec![2, 1, 6, 2, 13, 9, 4, 1, 2, b'x', b'y', 3],
        vec![9, 4, 2, 1, 6, 3],
        vec![4, 1, 25, 2, 4, 5, 5],
        vec![1, 0],
        vec![255],
    ];
    for bytes in inputs {
        let v = deserialize(&bytes).unwrap();
        assert_eq!(serialize(&v).unwrap(), bytes);
    }
}

#[test]
fn length_bytes_equal_to_end_tags_round_trip() {
    // The element [1, 1, 97] is framed by the length byte 3, the same byte as
    // the list's end tag; only the last byte of the list ends it.
    let v = Value::Vector(vec![Value::Slice(b"a")]);
    let bytes = serialize(&v).unwrap();
    assert_eq!(bytes, vec![2, 3, 1, 1, 97, 3]);
    assert_eq!(deserialize(&bytes), Ok(v));

    // A key of five bytes is framed by the association's end tag 5.
    let abc = Value::HashMap(vec![(Value::Slice(b"abc"), Value::Bool(true))]);
    let ab = serialize(&abc).unwrap();
    assert_eq!(ab, vec![4, 5, 1, 3, 97, 98, 99, 1, 6, 5]);
    assert_eq!(deserialize(&ab), Ok(abc));

    let m = Value::HashMap(vec![(Value::I32(1), Value::Bool(true))]);
    let mb = serialize(&m).unwrap();
    assert_eq!(mb[1], 5);
    assert_eq!(deserialize(&mb), Ok(m));

    let o = Value::Optional(Some(Box::new(Value::Vector(vec![Value::Slice(b"a")]))));
    let ob = serialize(&o).unwrap();
    assert_eq!(ob, vec![9, 6, 2, 3, 1, 1, 97, 3]);
    assert_eq!(deserialize(&ob), Ok(o));

    let many = Value::Vector(vec![Value::Slice(b"x"), Value::Slice(b""), Value::Slice(b"y"), Value::U8(3)]);
    let mb2 = serialize(&many).unwrap();
    assert_eq!(deserialize(&mb2), Ok(many));
}

#[test]
fn unknown_tag_inside_a_frame_of_three_bytes() {
    assert_eq!(deserialize(&[2, 3, 14, 0, 0, 3]), Err(Error::UnknownTag));
    assert_eq!(deserialize(&[4, 5, 19, 0, 0, 0, 0, 1, 6, 5]), Err(Error::UnknownTag));
}

#[test]
fn prefixes_of_a_list_with_a_three_byte_element() {
    let bytes = vec![2u8, 3, 1, 1, 97, 3];
    // Cut just after the first length byte: what is left is the whole
    // encoding of the empty list, and reads as such.
    assert_eq!(deserialize(&bytes[..2]), Ok(Value::Vector(vec![])));
    for cut in [0usize, 1, 3, 4, 5] {
        assert_eq!(deserialize(&bytes[..cut]), Err(Error::Truncated), "cut at {}", cut);
    }
}

#[test]
fn owned_bytes_encode_like_borrowed_and_decode_borrowed() {
    let owned = Value::SliceLike(b"abc".to_vec());
    let borrowed = Value::Slice(b"abc");
    let bytes = serialize(&owned).unwrap();
    assert_eq!(bytes, serialize(&borrowed).unwrap());
    assert_eq!(bytes, vec![1, 3, b'a', b'b', b'c']);
    let back = deserialize(&bytes).unwrap();
    assert_eq!(back, Value::Slice(&bytes[2..]));
    match back {
        Value::Slice(s) => assert_eq!(s.as_ptr(), bytes[2..].as_ptr()),
        other => panic!("not borrowed: {:?}", other),
    }
}

#[test]
fn as_slice_reads_byte_strings_only() {
    assert_eq!(Value::Slice(b"q").as_slice(), Some(&b"q"[..]));
    assert_eq!(Value::SliceLike(vec![1, 2]).as_slice(), Some(&[1u8, 2][..]));
    assert_eq!(Value::U8(1).as_slice(), None);
    assert_eq!(Value::Vector(vec![]).as_slice(), None);
}

#[test]
fn serialize_into_appends() {
    let mut buf = vec![42u8];
    assert_eq!(Value::Bool(true).serialize_into(&mut buf), Ok(()));
    assert_eq!(Value::SmallU8(1).serialize_into(&mut buf), Ok(()));
    assert_eq!(buf, vec![42, 6, 21]);
    assert_eq!(Value::SmallU8(250).serialize_into(&mut buf), Err(Error::InvalidSmallValue));
    assert_eq!(&buf[..3], &[42, 6, 21]);
    assert_eq!(Value::Bool(false).serialize(), Ok(vec![7]));
    assert_eq!(Value::deserialize_from(&[7]), Ok(Value::Bool(false)));
}

#[test]
fn nested_round_trip() {
    let inner = Value::HashMap(vec![
        (Value::Slice(b"k1"), Value::Vector(vec![Value::I32(-7), Value::Optional(None)])),
        (Value::SmallU8(3), Value::Optional(Some(Box::new(Value::F32(2.0f32.to_bits()))))),
    ]);
    let v = Value::Vector(vec![inner, Value::Slice(b""), Value::Vector(vec![Value::Vector(vec![])])]);
    let bytes = serialize(&v).unwrap();
    assert_eq!(deserialize(&bytes), Ok(v));
}

#[test]
fn from_u8_packs_small_values() {
    assert_eq!(Value::from_u8(0), Value::SmallU8(0));
    assert_eq!(Value::from_u8(235), Value::SmallU8(235));
    assert_eq!(Value::from_u8(236), Value::U8(236));
    assert_eq!(serialize(&Value::from_u8(236)), Ok(vec![13, 236]));
    assert_eq!(serialize(&Value::from_u8(5)), Ok(vec![25]));
}
