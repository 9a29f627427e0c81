use peeroxide_dht::compact_encoding::{
    decode_bool, decode_buffer, decode_fixed32, decode_fixed64, decode_int, decode_ipv4, decode_ipv4_address,
    decode_string, decode_string_array, decode_uint, decode_uint16, decode_uint24, decode_uint32, decode_uint64,
    decode_uint8, decode_uint_array, encode_bool, encode_buffer, encode_fixed32, encode_fixed64, encode_int,
    encode_ipv4, encode_ipv4_address, encode_string, encode_string_array, encode_uint, encode_uint16,
    encode_uint24, encode_uint32, encode_uint64, encode_uint8, encode_uint_array, preencode_bool,
    preencode_buffer, preencode_fixed32, preencode_fixed64, preencode_int, preencode_ipv4,
    preencode_ipv4_address, preencode_string, preencode_string_array, preencode_uint, preencode_uint16,
    preencode_uint24, preencode_uint32, preencode_uint64, preencode_uint8, preencode_uint_array,
    zigzag_decode, zigzag_encode, EncodingError, State,
};
use peeroxide_dht::compact_encoding::{
    decode_ip, decode_ipv6, decode_ipv6_address, encode_ip, encode_ipv6, encode_ipv6_address, preencode_ip,
    preencode_ipv6, preencode_ipv6_address,
};

fn encode_value_with_pre(pre_fn: impl FnOnce(&mut State), enc_fn: impl FnOnce(&mut State)) -> Vec<u8> {
    let mut state = State::new();
    pre_fn(&mut state);
    state.allocate();
    enc_fn(&mut state);
    state.buffer
}

#[test]
fn uint8_roundtrip() {
    for val in [0u8, 1, 127, 128, 255] {
        let buf = encode_value_with_pre(|s| preencode_uint8(s, val), |s| encode_uint8(s, val));
        assert_eq!(buf, vec![val]);
        let mut state = State::from_buffer(&buf);
        assert_eq!(decode_uint8(&mut state).unwrap(), val);
    }
}

#[test]
fn uint16_little_endian() {
    let buf = encode_value_with_pre(|s| preencode_uint16(s, 0x0102), |s| encode_uint16(s, 0x0102));
    assert_eq!(buf, vec![0x02, 0x01]);
    let mut state = State::from_buffer(&buf);
    assert_eq!(decode_uint16(&mut state).unwrap(), 0x0102);
}

#[test]
fn uint24_little_endian() {
    let buf = encode_value_with_pre(|s| preencode_uint24(s, 0x010203), |s| encode_uint24(s, 0x010203));
    assert_eq!(buf, vec![0x03, 0x02, 0x01]);
    let mut state = State::from_buffer(&buf);
    assert_eq!(decode_uint24(&mut state).unwrap(), 0x010203);
}

#[test]
fn uint32_little_endian() {
    let buf = encode_value_with_pre(|s| preencode_uint32(s, 0x01020304), |s| encode_uint32(s, 0x01020304));
    assert_eq!(buf, vec![0x04, 0x03, 0x02, 0x01]);
    let mut state = State::from_buffer(&buf);
    assert_eq!(decode_uint32(&mut state).unwrap(), 0x01020304);
}

#[test]
fn uint64_little_endian() {
    let buf = encode_value_with_pre(
        |s| preencode_uint64(s, 0x0102030405060708),
        |s| encode_uint64(s, 0x0102030405060708),
    );
    assert_eq!(buf, vec![0x08, 0x07, 0x06, 0x05, 0x04, 0x03, 0x02, 0x01]);
    let mut state = State::from_buffer(&buf);
    assert_eq!(decode_uint64(&mut state).unwrap(), 0x0102030405060708);
}

#[test]
fn uint_varint_1_byte() {
    for val in [0u64, 1, 100, 252] {
        let buf = encode_value_with_pre(|s| preencode_uint(s, val), |s| encode_uint(s, val));
        assert_eq!(buf.len(), 1);
        assert_eq!(buf[0], val as u8);
        let mut state = State::from_buffer(&buf);
        assert_eq!(decode_uint(&mut state).unwrap(), val);
    }
}

#[test]
fn uint_varint_3_byte() {
    for val in [253u64, 1000, 65535] {
        let buf = encode_value_with_pre(|s| preencode_uint(s, val), |s| encode_uint(s, val));
        assert_eq!(buf.len(), 3);
        assert_eq!(buf[0], 0xfd);
        let mut state = State::from_buffer(&buf);
        assert_eq!(decode_uint(&mut state).unwrap(), val);
    }
}

#[test]
fn uint_varint_5_byte() {
    for val in [65536u64, 100_000, 0xffffffff] {
        let buf = encode_value_with_pre(|s| preencode_uint(s, val), |s| encode_uint(s, val));
        assert_eq!(buf.len(), 5);
        assert_eq!(buf[0], 0xfe);
        let mut state = State::from_buffer(&buf);
        assert_eq!(decode_uint(&mut state).unwrap(), val);
    }
}

#[test]
fn uint_varint_9_byte() {
    let val = 0x100000000u64;
    let buf = encode_value_with_pre(|s| preencode_uint(s, val), |s| encode_uint(s, val));
    assert_eq!(buf.len(), 9);
    assert_eq!(buf[0], 0xff);
    let mut state = State::from_buffer(&buf);
    assert_eq!(decode_uint(&mut state).unwrap(), val);
}

#[test]
fn zigzag_encoding() {
    assert_eq!(zigzag_encode(0), 0);
    assert_eq!(zigzag_encode(-1), 1);
    assert_eq!(zigzag_encode(1), 2);
    assert_eq!(zigzag_encode(-2), 3);
    assert_eq!(zigzag_encode(2), 4);

    assert_eq!(zigzag_decode(0), 0);
    assert_eq!(zigzag_decode(1), -1);
    assert_eq!(zigzag_decode(2), 1);
    assert_eq!(zigzag_decode(3), -2);
    assert_eq!(zigzag_decode(4), 2);
}

#[test]
fn int_roundtrip() {
    for val in [0i64, 1, -1, 127, -128, 1000, -1000, i64::MAX, i64::MIN] {
        let buf = encode_value_with_pre(|s| preencode_int(s, val), |s| encode_int(s, val));
        let mut state = State::from_buffer(&buf);
        assert_eq!(decode_int(&mut state).unwrap(), val);
    }
}

#[test]
fn bool_roundtrip() {
    for val in [true, false] {
        let buf = encode_value_with_pre(|s| preencode_bool(s, val), |s| encode_bool(s, val));
        let mut state = State::from_buffer(&buf);
        assert_eq!(decode_bool(&mut state).unwrap(), val);
    }
}

#[test]
fn buffer_some() {
    let data = b"hello world";
    let buf = encode_value_with_pre(
        |s| preencode_buffer(s, Some(data.as_slice())),
        |s| encode_buffer(s, Some(data.as_slice())),
    );
    let mut state = State::from_buffer(&buf);
    assert_eq!(decode_buffer(&mut state).unwrap(), Some(data.to_vec()));
}

#[test]
fn buffer_none() {
    let buf = encode_value_with_pre(|s| preencode_buffer(s, None), |s| encode_buffer(s, None));
    assert_eq!(buf, vec![0x00]);
    let mut state = State::from_buffer(&buf);
    assert_eq!(decode_buffer(&mut state).unwrap(), None);
}

#[test]
fn string_roundtrip() {
    for val in ["", "hello", "hello world 🌍", "a".repeat(1000).as_str()] {
        let buf = encode_value_with_pre(|s| preencode_string(s, val), |s| encode_string(s, val));
        let mut state = State::from_buffer(&buf);
        assert_eq!(decode_string(&mut state).unwrap(), val);
    }
}

#[test]
fn fixed32_roundtrip() {
    let data = [42u8; 32];
    let buf = encode_value_with_pre(
        |s| {
            preencode_fixed32(s, &data).unwrap();
        },
        |s| encode_fixed32(s, &data),
    );
    assert_eq!(buf.len(), 32);
    let mut state = State::from_buffer(&buf);
    assert_eq!(decode_fixed32(&mut state).unwrap(), data);
}

#[test]
fn fixed64_roundtrip() {
    let data = [99u8; 64];
    let buf = encode_value_with_pre(
        |s| {
            preencode_fixed64(s, &data).unwrap();
        },
        |s| encode_fixed64(s, &data),
    );
    assert_eq!(buf.len(), 64);
    let mut state = State::from_buffer(&buf);
    assert_eq!(decode_fixed64(&mut state).unwrap(), data);
}

#[test]
fn ipv4_roundtrip() {
    for addr in ["127.0.0.1", "192.168.1.1", "0.0.0.0", "255.255.255.255"] {
        let buf = encode_value_with_pre(|s| preencode_ipv4(s, addr), |s| encode_ipv4(s, addr).unwrap());
        assert_eq!(buf.len(), 4);
        let mut state = State::from_buffer(&buf);
        assert_eq!(decode_ipv4(&mut state).unwrap(), addr);
    }
}

#[test]
fn ipv6_roundtrip() {
    let buf = encode_value_with_pre(|s| preencode_ipv6(s, "::1"), |s| encode_ipv6(s, "::1").unwrap());
    assert_eq!(buf.len(), 16);
    let mut state = State::from_buffer(&buf);
    let decoded = decode_ipv6(&mut state).unwrap();
    assert_eq!(decoded, "::1");
}

#[test]
fn ip_dual_v4() {
    let addr = "192.168.1.1";
    let buf = encode_value_with_pre(|s| preencode_ip(s, addr), |s| encode_ip(s, addr).unwrap());
    assert_eq!(buf[0], 4);
    assert_eq!(buf.len(), 5);
    let mut state = State::from_buffer(&buf);
    assert_eq!(decode_ip(&mut state).unwrap(), addr);
}

#[test]
fn ip_dual_v6() {
    let addr = "::1";
    let buf = encode_value_with_pre(|s| preencode_ip(s, addr), |s| encode_ip(s, addr).unwrap());
    assert_eq!(buf[0], 6);
    assert_eq!(buf.len(), 17);
    let mut state = State::from_buffer(&buf);
    assert_eq!(decode_ip(&mut state).unwrap(), "::1");
}

#[test]
fn ipv6_text_forms() {
    let accepted = [
        ("::", "::"),
        ("::1", "::1"),
        ("1::", "1::"),
        ("1::2", "1::2"),
        ("fe80::1", "fe80::1"),
        ("2001:db8::ff00:42:8329", "2001:db8::ff00:42:8329"),
        ("2001:0db8:0000:0000:0000:ff00:0042:8329", "2001:db8::ff00:42:8329"),
        ("1:2:3:4:5:6:7:8", "1:2:3:4:5:6:7:8"),
        ("1:0:0:4:0:0:0:8", "1:0:0:4::8"),
        ("0:0:1:0:0:1:0:0", "::1:0:0:1:0:0"),
        ("::ffff:1.2.3.4", "::ffff:1.2.3.4"),
        ("::1.2.3.4", "::102:304"),
        ("1:2:3:4:5:6:1.2.3.4", "1:2:3:4:5:6:102:304"),
        ("1::2:3:4:5:6:7", "1:0:2:3:4:5:6:7"),
        ("ABCD::EF", "abcd::ef"),
        ("::ffff:0:0", "::ffff:0.0.0.0"),
        ("1:2:3:4:5:6:7::", "1:2:3:4:5:6:7:0"),
        ("::2:3:4:5:6:7:8", "0:2:3:4:5:6:7:8"),
        ("1:0:0:0:1:0:0:0", "1::1:0:0:0"),
    ];
    for (text, canonical) in accepted {
        let mut state = State::new();
        preencode_ipv6(&mut state, text);
        state.allocate();
        assert!(encode_ipv6(&mut state, text).is_ok(), "{text} should be accepted");
        let mut read = State::from_buffer(&state.buffer);
        assert_eq!(decode_ipv6(&mut read).unwrap(), canonical, "{text}");
    }
    let refused = [
        "", ":", ":::", "1:2:3:4:5:6:7:8:9", "12345::", "1::2::3", "::1.2.3", "::1.2.3.04", "::256.1.1.1", "g::",
        "1:2:3:4:5:6:7", "::1.2.3.4:5", "1.2.3.4::", "::ffff:1.2.3.4.5", " ::1", "1:::2",
    ];
    for text in refused {
        let mut state = State::new();
        preencode_ipv6(&mut state, text);
        state.allocate();
        let r = encode_ipv6(&mut state, text);
        assert!(matches!(r, Err(EncodingError::InvalidIpv6(ref t)) if t == text), "{text} should be refused");
        assert_eq!(state.start, 0);
    }
}

#[test]
fn ipv6_bytes_are_big_endian_groups() {
    let buf = encode_value_with_pre(|s| preencode_ipv6(s, "::ffff:1.2.3.4"), |s| encode_ipv6(s, "::ffff:1.2.3.4").unwrap());
    assert_eq!(buf, vec![0, 0, 0, 0, 0, 0, 0, 0, 0, 0, 0xff, 0xff, 1, 2, 3, 4]);
    let buf = encode_value_with_pre(|s| preencode_ipv6(s, "2001:db8::1"), |s| encode_ipv6(s, "2001:db8::1").unwrap());
    assert_eq!(buf, vec![0x20, 0x01, 0x0d, 0xb8, 0, 0, 0, 0, 0, 0, 0, 0, 0, 0, 0, 1]);
}

#[test]
fn ipv6_address_roundtrip() {
    let buf = encode_value_with_pre(
        |s| preencode_ipv6_address(s, "fe80::1", 8080),
        |s| encode_ipv6_address(s, "fe80::1", 8080).unwrap(),
    );
    assert_eq!(buf.len(), 18);
    let mut state = State::from_buffer(&buf);
    assert_eq!(decode_ipv6_address(&mut state).unwrap(), ("fe80::1".to_string(), 8080));
}

#[test]
fn ip_unknown_family_rejected() {
    let mut state = State::from_buffer(&[5u8, 1, 2, 3, 4]);
    assert!(matches!(decode_ip(&mut state), Err(EncodingError::InvalidIpFamily(5))));
}

#[test]
fn uint_array_roundtrip() {
    let arr = vec![0u64, 1, 252, 253, 65535, 65536, 0xffffffff, 0x100000000];
    let buf = encode_value_with_pre(|s| preencode_uint_array(s, &arr), |s| encode_uint_array(s, &arr));
    let mut state = State::from_buffer(&buf);
    assert_eq!(decode_uint_array(&mut state).unwrap(), arr);
}

#[test]
fn string_array_roundtrip() {
    let arr = vec!["hello", "world", "", "🌍"];
    let buf = encode_value_with_pre(|s| preencode_string_array(s, &arr), |s| encode_string_array(s, &arr));
    let mut state = State::from_buffer(&buf);
    assert_eq!(
        decode_string_array(&mut state).unwrap(),
        arr.iter().map(|s| s.to_string()).collect::<Vec<_>>()
    );
}

#[test]
fn ipv4_address_roundtrip() {
    let buf = encode_value_with_pre(
        |s| preencode_ipv4_address(s, "10.0.0.1", 8080),
        |s| encode_ipv4_address(s, "10.0.0.1", 8080).unwrap(),
    );
    assert_eq!(buf.len(), 6);
    let mut state = State::from_buffer(&buf);
    let (addr, port) = decode_ipv4_address(&mut state).unwrap();
    assert_eq!(addr, "10.0.0.1");
    assert_eq!(port, 8080);
}

#[test]
fn out_of_bounds_error() {
    let mut state = State::from_buffer(&[]);
    assert!(decode_uint8(&mut state).is_err());

    let mut state = State::from_buffer(&[0x01]);
    assert!(decode_uint16(&mut state).is_err());
}

#[test]
fn multiple_values_sequential() {
    let mut state = State::new();
    preencode_uint(&mut state, 42);
    preencode_string(&mut state, "hello");
    preencode_bool(&mut state, true);
    state.allocate();
    encode_uint(&mut state, 42);
    encode_string(&mut state, "hello");
    encode_bool(&mut state, true);

    let mut dec = State::from_buffer(&state.buffer);
    assert_eq!(decode_uint(&mut dec).unwrap(), 42);
    assert_eq!(decode_string(&mut dec).unwrap(), "hello");
    assert!(decode_bool(&mut dec).unwrap());
    assert_eq!(dec.start, dec.end);
}

// ── Further cases ──

#[test]
fn out_of_bounds_reports_need_and_have() {
    let mut state = State::from_buffer(&[0xfd, 0x01]);
    match decode_uint(&mut state) {
        Err(EncodingError::OutOfBounds { need, have }) => {
            assert_eq!(need, 2);
            assert_eq!(have, 1);
        },
        other => panic!("unexpected {other:?}"),
    }
}

#[test]
fn invalid_ipv4_text_is_refused() {
    let mut state = State::new();
    preencode_ipv4(&mut state, "1.2.3");
    state.allocate();
    assert!(matches!(encode_ipv4(&mut state, "1.2.3"), Err(EncodingError::InvalidIpv4(_))));
}

#[test]
fn uint_varint_boundaries_exact_bytes() {
    let buf = encode_value_with_pre(|s| preencode_uint(s, 253), |s| encode_uint(s, 253));
    assert_eq!(buf, vec![0xfd, 0xfd, 0x00]);
    let buf = encode_value_with_pre(|s| preencode_uint(s, 0x10000), |s| encode_uint(s, 0x10000));
    assert_eq!(buf, vec![0xfe, 0x00, 0x00, 0x01, 0x00]);
}

#[test]
fn decode_bool_reads_any_nonzero_as_true() {
    let mut state = State::from_buffer(&[7]);
    assert!(decode_bool(&mut state).unwrap());
    let mut state = State::from_buffer(&[0]);
    assert!(!decode_bool(&mut state).unwrap());
}
