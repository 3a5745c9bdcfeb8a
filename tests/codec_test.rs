use mayaqua::memory::{read_buf_str, write_buf_str};
use mayaqua::pack_reader::{read_element, read_pack, read_value};
use mayaqua::pack_types::{Element, Pack, PackError, Value, ValueType};

fn int_element(name: &str, values: &[u32]) -> Element {
    let mut e = Element::new(name.to_string(), ValueType::Int);
    for v in values {
        e.values.push(Value::Int(*v));
    }
    e
}

#[test]
fn round_trip_keeps_elements_types_values_and_order() {
    let mut pack = Pack::new();
    pack.add_str("zeta", "héllo");
    pack.add_int("alpha", 7);
    pack.add_data("blob", vec![0, 1, 2, 255]);
    pack.add_bool("flag", true);
    let mut wide = Element::new("wide".to_string(), ValueType::Int64);
    wide.values.push(Value::Int64(0x0102_0304_0506_0708));
    wide.values.push(Value::Int64(u64::MAX));
    pack.add_element(wide).unwrap();
    pack.add_element(int_element("many", &[1, 2, 3])).unwrap();

    let buf = pack.to_buf().unwrap();
    let back = read_pack(&buf).unwrap();
    assert_eq!(back.get_names(), vec!["zeta", "alpha", "blob", "flag", "wide", "many"]);
    for (a, b) in pack.elements.iter().zip(back.elements.iter()) {
        assert_eq!(a.name, b.name);
        assert_eq!(a.type_, b.type_);
        assert_eq!(format!("{:?}", a.values), format!("{:?}", b.values));
    }
    assert_eq!(back.to_buf().unwrap(), buf);
}

#[test]
fn element_count_over_cap_fails_before_reading_more() {
    // 70000 = 0x00011170, and no bytes follow
    let buf = vec![0x00, 0x01, 0x11, 0x70];
    assert!(matches!(read_pack(&buf), Err(PackError::NumberExceeds)));
}

#[test]
fn value_count_over_cap_fails() {
    let mut buf = vec![0, 0, 0, 1];
    buf.extend_from_slice(&[0, 0, 0, 2, b'a']);
    buf.extend_from_slice(&[0, 0, 0, 0]);
    buf.extend_from_slice(&65537u32.to_be_bytes());
    assert!(matches!(read_pack(&buf), Err(PackError::NumberExceeds)));
}

#[test]
fn str_value_of_384_mib_fails_size_over() {
    let len: u32 = 384 * 1024 * 1024;
    let buf = len.to_be_bytes().to_vec();
    assert!(matches!(read_value(&buf, 0, ValueType::Str), Err(PackError::SizeOver)));
    let mut pack_buf = vec![0, 0, 0, 1, 0, 0, 0, 2, b's', 0, 0, 0, 2, 0, 0, 0, 1];
    pack_buf.extend_from_slice(&len.to_be_bytes());
    assert!(matches!(read_pack(&pack_buf), Err(PackError::SizeOver)));
}

#[test]
fn data_value_over_cap_fails_size_over_but_cap_itself_is_read() {
    let over: u32 = 384 * 1024 * 1024 + 1;
    assert!(matches!(read_value(&over.to_be_bytes(), 0, ValueType::Data), Err(PackError::SizeOver)));
    let at_cap: u32 = 384 * 1024 * 1024;
    // the cap is allowed, so the short buffer is what fails
    assert!(matches!(read_value(&at_cap.to_be_bytes(), 0, ValueType::Data), Err(PackError::IoError)));
}

#[test]
fn type_tag_99_fails_invalid_type() {
    let buf = vec![0, 0, 0, 1, 0, 0, 0, 2, b'x', 0, 0, 0, 99, 0, 0, 0, 1, 0, 0, 0, 5];
    assert!(matches!(read_pack(&buf), Err(PackError::InvalidType)));
    assert!(ValueType::from_u32(99).is_none());
    assert_eq!(ValueType::from_u32(4), Some(ValueType::Int64));
}

#[test]
fn wide_string_fails_unsupported_on_decode_and_encode() {
    let buf = vec![0, 0, 0, 1, 0, 0, 0, 2, b'w', 0, 0, 0, 3, 0, 0, 0, 1, 0, 0, 0, 0];
    assert!(matches!(read_pack(&buf), Err(PackError::UnsupportedType)));
    let mut pack = Pack::new();
    let mut e = Element::new("w".to_string(), ValueType::UniStr);
    e.values.push(Value::UniStr("x".to_string()));
    pack.add_element(e).unwrap();
    assert!(matches!(pack.to_buf(), Err(PackError::UnsupportedType)));
}

#[test]
fn mismatched_value_fails_invalid_type_on_encode() {
    let mut pack = Pack::new();
    let mut e = Element::new("m".to_string(), ValueType::Int);
    e.values.push(Value::Str("oops".to_string()));
    pack.add_element(e).unwrap();
    assert!(matches!(pack.to_buf(), Err(PackError::InvalidType)));
    let mut w = Vec::new();
    assert!(matches!(Value::Int(1).write(&mut w, ValueType::Data), Err(PackError::InvalidType)));
    assert!(w.is_empty());
}

#[test]
fn too_many_values_fails_on_encode() {
    let mut e = Element::new("big".to_string(), ValueType::Int);
    for i in 0..65537u32 {
        e.values.push(Value::Int(i));
    }
    let mut w = Vec::new();
    assert!(matches!(e.write(&mut w), Err(PackError::NumberExceeds)));
    assert!(w.is_empty());
}

#[test]
fn truncated_input_fails_io_error() {
    assert!(matches!(read_pack(&[0, 0]), Err(PackError::IoError)));
    let buf = vec![0, 0, 0, 1, 0, 0, 0, 5, b'a'];
    assert!(matches!(read_pack(&buf), Err(PackError::IoError)));
    let buf = vec![0, 0, 0, 1, 0, 0, 0, 2, b'a', 0, 0, 0, 0, 0, 0, 0, 1, 0, 0];
    assert!(matches!(read_pack(&buf), Err(PackError::IoError)));
}

#[test]
fn name_length_zero_and_bad_utf8_fail_io_error() {
    assert!(matches!(read_buf_str(&[0, 0, 0, 0], 0), Err(PackError::IoError)));
    assert!(matches!(read_buf_str(&[0, 0, 0, 2, 0xff], 0), Err(PackError::IoError)));
    let bad_str_value = vec![0, 0, 0, 2, 0xc3, 0x28];
    assert!(matches!(read_value(&bad_str_value, 0, ValueType::Str), Err(PackError::IoError)));
}

#[test]
fn name_string_uses_length_plus_one() {
    let mut w = Vec::new();
    write_buf_str(&mut w, "abc").unwrap();
    assert_eq!(w, vec![0, 0, 0, 4, b'a', b'b', b'c']);
    let (s, p) = read_buf_str(&w, 0).unwrap();
    assert_eq!(s, "abc");
    assert_eq!(p, 7);
    let mut empty = Vec::new();
    write_buf_str(&mut empty, "").unwrap();
    assert_eq!(empty, vec![0, 0, 0, 1]);
    assert_eq!(read_buf_str(&empty, 0).unwrap().0, "");
}

#[test]
fn duplicate_name_in_stream_fails_same_name_exists() {
    let one = vec![0, 0, 0, 2, b'a', 0, 0, 0, 0, 0, 0, 0, 1, 0, 0, 0, 9];
    let mut buf = vec![0, 0, 0, 2];
    buf.extend_from_slice(&one);
    buf.extend_from_slice(&one);
    assert!(matches!(read_pack(&buf), Err(PackError::SameNameExists)));
}

#[test]
fn element_without_values_in_stream_fails_zero_num_value() {
    let buf = vec![0, 0, 0, 1, 0, 0, 0, 2, b'a', 0, 0, 0, 0, 0, 0, 0, 0];
    assert!(matches!(read_pack(&buf), Err(PackError::ZeroNumValue)));
}

#[test]
fn scenario_int_and_str_exact_bytes() {
    let mut pack = Pack::new();
    pack.add_int("n", 12345);
    pack.add_str("s", "hi");
    let buf = pack.to_buf().unwrap();
    let expected: Vec<u8> = vec![
        0x00, 0x00, 0x00, 0x02, // element count
        0x00, 0x00, 0x00, 0x02, b'n', // name "n"
        0x00, 0x00, 0x00, 0x00, // Int
        0x00, 0x00, 0x00, 0x01, // one value
        0x00, 0x00, 0x30, 0x39, // 12345
        0x00, 0x00, 0x00, 0x02, b's', // name "s"
        0x00, 0x00, 0x00, 0x02, // Str
        0x00, 0x00, 0x00, 0x01, // one value
        0x00, 0x00, 0x00, 0x02, b'h', b'i', // "hi"
    ];
    assert_eq!(buf, expected);
    let back = read_pack(&expected).unwrap();
    assert_eq!(back.get_int("n"), 12345);
    assert_eq!(back.get_str("s"), "hi");
}

#[test]
fn int64_and_data_bytes() {
    let mut w = Vec::new();
    Value::Int64(0x0102_0304_0506_0708).write(&mut w, ValueType::Int64).unwrap();
    Value::Data(vec![9, 8]).write(&mut w, ValueType::Data).unwrap();
    assert_eq!(w, vec![1, 2, 3, 4, 5, 6, 7, 8, 0, 0, 0, 2, 9, 8]);
    let (v, p) = read_value(&w, 0, ValueType::Int64).unwrap();
    assert!(matches!(v, Value::Int64(0x0102_0304_0506_0708)));
    let (d, q) = read_value(&w, p, ValueType::Data).unwrap();
    assert!(matches!(d, Value::Data(ref x) if x == &vec![9u8, 8]));
    assert_eq!(q, w.len());
}

#[test]
fn read_element_reports_position_after_it() {
    let mut w = Vec::new();
    int_element("ab", &[5, 6]).write(&mut w).unwrap();
    w.push(0xee);
    let (e, p) = read_element(&w, 0).unwrap();
    assert_eq!(e.name, "ab");
    assert_eq!(e.num_value(), 2);
    assert_eq!(e.get_int_value(1), 6);
    assert_eq!(p, w.len() - 1);
}

#[test]
fn trailing_bytes_after_pack_are_ignored() {
    let mut pack = Pack::new();
    pack.add_int("a", 1);
    let mut buf = pack.to_buf().unwrap();
    buf.extend_from_slice(&[1, 2, 3]);
    assert_eq!(read_pack(&buf).unwrap().get_int("a"), 1);
}
