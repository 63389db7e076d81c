use torrent_info::{decode, DecodeError, Node, Value};

fn int_of(n: &Node) -> i64 {
    match &n.value {
        Value::Integer(i) => *i,
        other => panic!("not an integer: {:?}", other),
    }
}

fn bytes_of(n: &Node) -> &Vec<u8> {
    match &n.value {
        Value::ByteString(b) => b,
        other => panic!("not a byte string: {:?}", other),
    }
}

#[test]
fn integers_round_trip() {
    for i in [0i64, 1, -1, 42, -42, 16384, i64::MAX, i64::MIN, 1_000_000_007] {
        let enc = format!("i{}e", i);
        let n = decode(enc.as_bytes()).unwrap();
        assert_eq!(int_of(&n), i);
        assert_eq!(n.start, 0);
        assert_eq!(n.end, enc.len());
    }
}

#[test]
fn integers_out_of_range_fail() {
    assert!(decode(b"i9223372036854775808e").is_err());
    assert!(decode(b"i-9223372036854775809e").is_err());
    assert!(decode(b"i99999999999999999999999e").is_err());
}

#[test]
fn integers_malformed_fail() {
    assert!(decode(b"i-0e").is_err());
    assert!(decode(b"i03e").is_err());
    assert!(decode(b"i-03e").is_err());
    assert!(decode(b"ie").is_err());
    assert!(decode(b"i-e").is_err());
    assert!(decode(b"i1x2e").is_err());
}

#[test]
fn byte_strings_round_trip() {
    let samples: Vec<Vec<u8>> = vec![
        vec![],
        b"a".to_vec(),
        b"spam".to_vec(),
        vec![0u8, 255, 10, 58, 101],
        vec![7u8; 123],
    ];
    for b in samples {
        let mut enc = format!("{}:", b.len()).into_bytes();
        enc.extend_from_slice(&b);
        let n = decode(&enc).unwrap();
        assert_eq!(bytes_of(&n), &b);
        assert_eq!(n.start, 0);
        assert_eq!(n.end, b.len().to_string().len() + 1 + b.len());
    }
}

#[test]
fn byte_string_length_with_leading_zero_fails() {
    assert!(decode(b"04:spam").is_err());
    assert!(decode(b"00:").is_err());
}

#[test]
fn dictionary_in_order() {
    let n = decode(b"d3:bar4:spam3:fooi42ee").unwrap();
    match &n.value {
        Value::Dictionary(entries) => {
            assert_eq!(entries.len(), 2);
            assert_eq!(entries[0].0, b"bar".to_vec());
            assert_eq!(bytes_of(&entries[0].1), &b"spam".to_vec());
            assert_eq!(entries[1].0, b"foo".to_vec());
            assert_eq!(int_of(&entries[1].1), 42);
            assert_eq!((entries[0].1.start, entries[0].1.end), (6, 12));
            assert_eq!((entries[1].1.start, entries[1].1.end), (17, 21));
        }
        other => panic!("not a dictionary: {:?}", other),
    }
    assert_eq!((n.start, n.end), (0, 22));
}

#[test]
fn list_in_order_with_spans() {
    let n = decode(b"li1e3:abcl0:ee").unwrap();
    match &n.value {
        Value::List(items) => {
            assert_eq!(items.len(), 3);
            assert_eq!(int_of(&items[0]), 1);
            assert_eq!(bytes_of(&items[1]), &b"abc".to_vec());
            assert_eq!((items[2].start, items[2].end), (9, 13));
            match &items[2].value {
                Value::List(inner) => {
                    assert_eq!(inner.len(), 1);
                    assert_eq!(bytes_of(&inner[0]), &Vec::<u8>::new());
                }
                other => panic!("not a list: {:?}", other),
            }
        }
        other => panic!("not a list: {:?}", other),
    }
    assert_eq!(n.end, 14);
}

#[test]
fn decoding_twice_gives_equal_trees() {
    let buf = b"d8:announce3:xyz4:infod4:name4:test12:piece lengthi16384e6:pieces20:AAAAAAAAAAAAAAAAAAAAee";
    let a = decode(buf).unwrap();
    let b = decode(buf).unwrap();
    assert_eq!(a, b);
}

#[test]
fn truncated_inputs_fail() {
    assert!(decode(b"d4:info").is_err());
    assert!(decode(b"d4:infod4:name4:te").is_err());
    assert!(decode(b"d4:inf").is_err());
    assert!(decode(b"i42").is_err());
    assert!(decode(b"l").is_err());
    assert!(decode(b"5:abc").is_err());
    assert!(decode(b"3abc").is_err());
    assert!(decode(b"").is_err());
}

#[test]
fn non_digit_length_fails() {
    assert!(decode(b"x:abc").is_err());
    assert!(decode(b"d3:fooxe").is_err());
}

#[test]
fn non_string_key_fails() {
    assert!(decode(b"di1ei2ee").is_err());
    assert!(decode(b"dli1ee3:abce").is_err());
}

#[test]
fn trailing_bytes_fail() {
    let e: DecodeError = decode(b"i1ei2e").unwrap_err();
    assert_eq!(e.offset, 3);
}

#[test]
fn error_offsets_stay_in_buffer() {
    for buf in [&b"d4:info"[..], b"i42", b"x:abc", b"99:a", b"le"] {
        match decode(buf) {
            Err(e) => assert!(e.offset <= buf.len()),
            Ok(_) => assert_eq!(buf, b"le"),
        }
    }
}
