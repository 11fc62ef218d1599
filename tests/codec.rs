use mkit::codec::RECURSION_LIMIT;
use mkit::header::{decode_addnl, decode_hdr, encode_addnl, encode_hdr, Info};
use mkit::single::only_one;
use mkit::value::{Cbor, Key, SimpleValue, Tag};
use mkit::Error;

fn encoded(v: Cbor) -> Vec<u8> {
    let mut buf = Vec::new();
    let n = v.encode(&mut buf).unwrap();
    assert_eq!(n, buf.len());
    buf
}

fn decoded(data: &[u8]) -> Cbor {
    let (v, n) = Cbor::decode(data).unwrap();
    assert_eq!(n, data.len());
    v
}

fn nested_list(depth: usize) -> Cbor {
    let mut v = Cbor::Major4(Info::Tiny(0), vec![]);
    for _ in 1..depth {
        v = Cbor::Major4(Info::Tiny(1), vec![v]);
    }
    v
}

#[test]
fn encode_unsigned_23_is_one_byte() {
    assert_eq!(encoded(Cbor::Major0(Info::Tiny(23), 23)), vec![0x17]);
}

#[test]
fn encode_unsigned_24_takes_a_byte() {
    assert_eq!(encoded(Cbor::Major0(Info::U8, 24)), vec![0x18, 0x18]);
}

#[test]
fn encode_text_it() {
    let v = Cbor::Major3(Info::Tiny(2), b"IT".to_vec());
    assert_eq!(encoded(v), vec![0x62, 0x49, 0x54]);
}

#[test]
fn empty_list_both_ways() {
    assert_eq!(encoded(Cbor::Major4(Info::Tiny(0), vec![])), vec![0x80]);
    assert_eq!(decoded(&[0x80]), Cbor::Major4(Info::Tiny(0), vec![]));
}

#[test]
fn lone_break_fails() {
    assert_eq!(Cbor::decode(&[0xff]), Err(Error::FailCbor));
}

#[test]
fn negative_and_wide_integers() {
    assert_eq!(encoded(Cbor::Major1(Info::Tiny(9), 9)), vec![0x29]);
    assert_eq!(encoded(Cbor::Major0(Info::U16, 1000)), vec![0x19, 0x03, 0xe8]);
    assert_eq!(
        encoded(Cbor::Major0(Info::U32, 1_000_000)),
        vec![0x1a, 0x00, 0x0f, 0x42, 0x40]
    );
    assert_eq!(
        encoded(Cbor::Major0(Info::U64, u64::MAX)),
        vec![0x1b, 0xff, 0xff, 0xff, 0xff, 0xff, 0xff, 0xff, 0xff]
    );
    assert_eq!(decoded(&[0x38, 0x63]), Cbor::Major1(Info::U8, 99));
}

#[test]
fn header_round_trip_all_codes() {
    for major in 0u8..8 {
        for code in 0u8..32 {
            let info = Info::from_code(code).unwrap();
            let mut buf = Vec::new();
            assert_eq!(encode_hdr(major, info, &mut buf), Ok(1));
            assert_eq!(buf, vec![(major << 5) | code]);
            assert_eq!(decode_hdr(&buf, 0), Ok((major, info, 1)));
        }
    }
}

#[test]
fn header_refuses_large_immediate() {
    let mut buf = Vec::new();
    assert_eq!(encode_hdr(0, Info::Tiny(24), &mut buf), Err(Error::FailCbor));
    assert!(buf.is_empty());
    assert_eq!(Info::from_code(32), Err(Error::Fatal));
    assert_eq!(decode_hdr(&[], 0), Err(Error::IoError));
}

#[test]
fn addnl_without_value_fails() {
    for code in 28u8..32 {
        let info = Info::from_code(code).unwrap();
        assert_eq!(decode_addnl(info, &[0, 0, 0, 0], 0), Err(Error::FailCbor));
    }
}

#[test]
fn addnl_round_trip_and_widths() {
    let cases: Vec<(u64, usize)> = vec![
        (0, 0),
        (23, 0),
        (24, 1),
        (255, 1),
        (256, 2),
        (65535, 2),
        (65536, 4),
        (4294967295, 4),
        (4294967296, 8),
        (u64::MAX, 8),
    ];
    for (n, w) in cases {
        let mut buf = vec![0xaa];
        assert_eq!(encode_addnl(n, &mut buf), Ok(w));
        assert_eq!(buf.len(), 1 + w);
        assert_eq!(decode_addnl(Info::from_u64(n), &buf, 1), Ok((n, 1 + w)));
    }
    assert_eq!(decode_addnl(Info::U16, &[0x01], 0), Err(Error::IoError));
}

#[test]
fn minimal_descriptors() {
    assert_eq!(Info::from_u64(7), Info::Tiny(7));
    assert_eq!(Info::from_u64(200), Info::U8);
    assert_eq!(Info::from_u64(300), Info::U16);
    assert_eq!(Info::from_u64(70000), Info::U32);
    assert_eq!(Info::from_u64(1 << 40), Info::U64);
    assert_eq!(Info::from_usize(24), Info::U8);
}

#[test]
fn indefinite_bytes_join_chunks() {
    for n in [0usize, 1, 5] {
        let mut data = vec![0x5f];
        let mut joined = Vec::new();
        for k in 0..n {
            let chunk = vec![k as u8; k + 1];
            Cbor::Major2(Info::from_usize(chunk.len()), chunk.clone())
                .encode(&mut data)
                .unwrap();
            joined.extend_from_slice(&chunk);
        }
        data.push(0xff);
        assert_eq!(decoded(&data), Cbor::Major2(Info::Indefinite, joined.clone()));
        let direct = encoded(Cbor::Major2(Info::from_usize(joined.len()), joined.clone()));
        assert_eq!(decoded(&direct), Cbor::Major2(Info::from_usize(joined.len()), joined));
    }
}

#[test]
fn indefinite_text_joins_chunks() {
    for n in [0usize, 1, 5] {
        let mut data = vec![0x7f];
        let mut joined = Vec::new();
        for k in 0..n {
            let chunk = format!("c{}", k).into_bytes();
            Cbor::Major3(Info::from_usize(chunk.len()), chunk.clone())
                .encode(&mut data)
                .unwrap();
            joined.extend_from_slice(&chunk);
        }
        data.push(0xff);
        assert_eq!(decoded(&data), Cbor::Major3(Info::Indefinite, joined));
    }
}

#[test]
fn indefinite_list_collects_items() {
    for n in [0usize, 1, 5] {
        let mut data = vec![0x9f];
        let mut items = Vec::new();
        let mut definite = vec![0x80 | n as u8];
        for k in 0..n {
            Cbor::Major0(Info::Tiny(k as u8), k as u64).encode(&mut data).unwrap();
            Cbor::Major0(Info::Tiny(k as u8), k as u64).encode(&mut definite).unwrap();
            items.push(Cbor::Major0(Info::Tiny(k as u8), k as u64));
        }
        data.push(0xff);
        assert_eq!(decoded(&data), Cbor::Major4(Info::Indefinite, items));
        match (decoded(&data), decoded(&definite)) {
            (Cbor::Major4(_, a), Cbor::Major4(_, b)) => assert_eq!(a, b),
            _ => panic!("expected lists"),
        }
    }
}

#[test]
fn indefinite_map_collects_pairs() {
    for n in [0usize, 1, 5] {
        let mut data = vec![0xbf];
        let mut pairs = Vec::new();
        for k in 0..n {
            Cbor::Major0(Info::Tiny(k as u8), k as u64).encode(&mut data).unwrap();
            Cbor::Major7(Info::Tiny(20), SimpleValue::True).encode(&mut data).unwrap();
            pairs.push((Key::U64(k as u64), Cbor::Major7(Info::Tiny(20), SimpleValue::True)));
        }
        // a key, then a break where its value would be
        data.push(0x00);
        data.push(0xff);
        assert_eq!(decoded(&data), Cbor::Major5(Info::Indefinite, pairs));
    }
}

#[test]
fn break_in_key_position_is_no_key() {
    assert_eq!(Cbor::decode(&[0xbf, 0xff]), Err(Error::FailKey));
}

#[test]
fn break_in_definite_list_fails() {
    assert_eq!(Cbor::decode(&[0x81, 0xff]), Err(Error::FailCbor));
    assert_eq!(Cbor::decode(&[0xa1, 0x01, 0xff]), Err(Error::FailCbor));
}

#[test]
fn wrong_chunk_fails() {
    assert_eq!(Cbor::decode(&[0x5f, 0x61, 0x41, 0xff]), Err(Error::FailCbor));
    assert_eq!(Cbor::decode(&[0x5f, 0x5f, 0xff, 0xff]), Err(Error::FailCbor));
}

#[test]
fn nesting_at_the_limit() {
    let depth = RECURSION_LIMIT as usize;
    let mut buf = Vec::new();
    assert_eq!(nested_list(depth).encode(&mut buf), Ok(depth));
    assert_eq!(Cbor::decode(&buf).map(|(_, n)| n), Ok(depth));

    let mut buf = Vec::new();
    assert_eq!(nested_list(depth + 1).encode(&mut buf), Err(Error::FailCbor));
    let mut data = vec![0x81; depth];
    data.push(0x80);
    assert_eq!(Cbor::decode(&data), Err(Error::FailCbor));
}

#[test]
fn key_conversions() {
    assert_eq!(Cbor::from_key(Key::N64(-1)), Cbor::Major1(Info::Tiny(0), 0));
    assert_eq!(Cbor::from_key(Key::U64(5)), Cbor::Major0(Info::Tiny(5), 5));
    assert_eq!(Cbor::from_key(Key::N64(7)), Cbor::Major0(Info::Tiny(7), 7));
    assert_eq!(
        Cbor::from_key(Key::N64(i64::MIN)),
        Cbor::Major1(Info::U64, i64::MAX as u64)
    );
    assert_eq!(
        Key::from_cbor(Cbor::Major4(Info::Tiny(0), vec![])),
        Err(Error::FailKey)
    );
    assert_eq!(Key::from_cbor(Cbor::Major1(Info::Tiny(0), 0)), Ok(Key::N64(-1)));
    assert_eq!(Key::from_cbor(Cbor::Major0(Info::Tiny(5), 5)), Ok(Key::U64(5)));
    assert_eq!(
        Key::from_cbor(Cbor::Major1(Info::U64, i64::MAX as u64)),
        Ok(Key::N64(i64::MIN))
    );
    assert_eq!(
        Key::from_cbor(Cbor::Major1(Info::U64, i64::MAX as u64 + 1)),
        Err(Error::FailConvert)
    );
    assert_eq!(
        Key::from_cbor(Cbor::Major6(Info::Tiny(1), Tag::Value(1))),
        Err(Error::FailKey)
    );
    assert_eq!(
        Key::from_cbor(Cbor::Major7(Info::Tiny(22), SimpleValue::Null)),
        Err(Error::FailKey)
    );
}

#[test]
fn text_keys_are_utf8() {
    let bytes = "h\u{e9}!".as_bytes().to_vec();
    assert_eq!(bytes.len(), 4);
    assert_eq!(
        Key::from_cbor(Cbor::Major3(Info::Tiny(4), bytes.clone())),
        Ok(Key::Text("h\u{e9}!".to_string()))
    );
    assert_eq!(
        Cbor::from_key(Key::Text("h\u{e9}!".to_string())),
        Cbor::Major3(Info::Tiny(4), bytes)
    );
    assert_eq!(
        Key::from_cbor(Cbor::Major3(Info::Tiny(2), vec![0xc3, 0x28])),
        Err(Error::FailConvert)
    );
}

#[test]
fn simple_values_standing_alone() {
    assert_eq!(
        Cbor::from_simple(SimpleValue::True),
        Ok(Cbor::Major7(Info::Tiny(20), SimpleValue::True))
    );
    assert_eq!(
        Cbor::from_simple(SimpleValue::F64(1)),
        Ok(Cbor::Major7(Info::U64, SimpleValue::F64(1)))
    );
    for s in [
        SimpleValue::Unassigned,
        SimpleValue::Undefined,
        SimpleValue::Reserved24(5),
        SimpleValue::F16(0),
        SimpleValue::Break,
    ] {
        assert_eq!(Cbor::from_simple(s), Err(Error::FailConvert));
    }
}

#[test]
fn simple_value_bytes() {
    let bits = 1.5f32.to_bits();
    assert_eq!(
        encoded(Cbor::Major7(Info::U32, SimpleValue::F32(bits))),
        vec![0xfa, 0x3f, 0xc0, 0x00, 0x00]
    );
    assert_eq!(
        decoded(&[0xfa, 0x3f, 0xc0, 0x00, 0x00]),
        Cbor::Major7(Info::U32, SimpleValue::F32(bits))
    );
    let bits = (-2.0f64).to_bits();
    let data = encoded(Cbor::Major7(Info::U64, SimpleValue::F64(bits)));
    assert_eq!(data, vec![0xfb, 0xc0, 0, 0, 0, 0, 0, 0, 0]);
    assert_eq!(decoded(&data), Cbor::Major7(Info::U64, SimpleValue::F64(bits)));
    assert_eq!(
        encoded(Cbor::Major7(Info::U8, SimpleValue::Reserved24(0x20))),
        vec![0xf8, 0x20]
    );
    assert_eq!(
        encoded(Cbor::Major7(Info::U16, SimpleValue::F16(0x3c00))),
        vec![0xf9, 0x3c, 0x00]
    );
    assert_eq!(decoded(&[0xf4]), Cbor::Major7(Info::Tiny(20), SimpleValue::True));
    assert_eq!(decoded(&[0xf5]), Cbor::Major7(Info::Tiny(21), SimpleValue::False));
    assert_eq!(decoded(&[0xf6]), Cbor::Major7(Info::Tiny(22), SimpleValue::Null));
}

#[test]
fn simple_value_errors() {
    for byte in [0xf7u8, 0xf0, 0xf8, 0xf9, 0xfc, 0xfd, 0xfe] {
        assert_eq!(Cbor::decode(&[byte, 0, 0]), Err(Error::FailCbor));
    }
    assert_eq!(Cbor::decode(&[0xfa, 0x00]), Err(Error::IoError));
}

#[test]
fn tags_carry_only_an_id() {
    let mut buf = Vec::new();
    assert_eq!(Tag::Value(300).encode(&mut buf), Ok(2));
    assert_eq!(buf, vec![0x01, 0x2c]);
    assert_eq!(Tag::decode(Info::U16, &buf, 0), Ok((Tag::Value(300), 2)));
    assert_eq!(encoded(Cbor::Major6(Info::Tiny(1), Tag::Value(1))), vec![0xc1]);
    assert_eq!(decoded(&[0xd8, 0x20]), Cbor::Major6(Info::U8, Tag::Value(32)));
    assert_eq!(Tag::decode(Info::Indefinite, &buf, 0), Err(Error::FailCbor));
    assert_eq!(u64::from(Tag::from(9u64)), 9);
}

#[test]
fn truncated_input() {
    assert_eq!(Cbor::decode(&[]), Err(Error::IoError));
    assert_eq!(Cbor::decode(&[0x43, 0x01, 0x02]), Err(Error::IoError));
    assert_eq!(Cbor::decode(&[0x82, 0x01]), Err(Error::IoError));
    assert_eq!(Cbor::decode(&[0x19, 0x01]), Err(Error::IoError));
    assert_eq!(Cbor::decode(&[0x9f, 0x01]), Err(Error::IoError));
}

#[test]
fn reserved_descriptors_fail() {
    assert_eq!(Cbor::decode(&[0x1c]), Err(Error::FailCbor));
    assert_eq!(Cbor::decode(&[0x1f]), Err(Error::FailCbor));
    assert_eq!(Cbor::decode(&[0x3e]), Err(Error::FailCbor));
}

#[test]
fn tree_round_trip() {
    let tree = || {
        Cbor::Major5(
            Info::Tiny(7),
            vec![
                (Key::U64(1), Cbor::Major2(Info::Tiny(3), vec![1, 2, 3])),
                (Key::N64(-500), Cbor::Major3(Info::Tiny(2), b"ok".to_vec())),
                (
                    Key::Bytes(vec![9; 30]),
                    Cbor::Major4(
                        Info::Tiny(3),
                        vec![
                            Cbor::Major0(Info::U32, 100_000),
                            Cbor::Major1(Info::U64, 1 << 40),
                            Cbor::Major7(Info::Tiny(22), SimpleValue::Null),
                        ],
                    ),
                ),
                (Key::Text("key".to_string()), Cbor::Major7(Info::Tiny(21), SimpleValue::False)),
                (Key::Bool(true), Cbor::Major7(Info::U32, SimpleValue::F32(0x4049_0fdb))),
                (
                    Key::F32(0x3f80_0000),
                    Cbor::Major7(Info::U64, SimpleValue::F64(0x4009_21fb_5444_2d18)),
                ),
                (Key::F64(0), Cbor::Major5(Info::Tiny(0), vec![])),
            ],
        )
    };
    let data = encoded(tree());
    assert_eq!(data[0], 0xa7);
    assert_eq!(decoded(&data), tree());
}

#[test]
fn decode_reports_bytes_taken() {
    assert_eq!(
        Cbor::decode(&[0x01, 0x02, 0x03]),
        Ok((Cbor::Major0(Info::Tiny(1), 1), 1))
    );
}

#[test]
fn encode_appends_and_keeps_prefix() {
    let mut buf = vec![0xee];
    assert_eq!(Cbor::Major0(Info::Tiny(1), 1).encode(&mut buf), Ok(1));
    assert_eq!(buf, vec![0xee, 0x01]);
    let bad = Cbor::Major4(Info::Tiny(1), vec![Cbor::Major0(Info::Tiny(30), 30)]);
    assert_eq!(bad.encode(&mut buf), Err(Error::FailCbor));
    assert_eq!(&buf[..2], &[0xee, 0x01]);
}

#[test]
fn only_one_picks_single() {
    assert_eq!(only_one(&[4]), Some(4));
    assert_eq!(only_one::<u8>(&[]), None);
    assert_eq!(only_one(&[1, 2]), None);
}

#[test]
fn clone_keeps_the_tree() {
    let v = Cbor::Major5(
        Info::Tiny(2),
        vec![
            (Key::Text("a".to_string()), Cbor::Major4(Info::Tiny(1), vec![Cbor::Major0(Info::Tiny(1), 1)])),
            (Key::Bytes(vec![1, 2]), Cbor::Major3(Info::Tiny(1), b"x".to_vec())),
        ],
    );
    let w = v.clone();
    assert_eq!(w, v);
    assert_eq!(encoded(w), encoded(v));
    assert_eq!(Key::N64(-3).clone(), Key::N64(-3));
}

#[test]
fn empty_map_at_the_limit() {
    let depth = RECURSION_LIMIT as usize;
    let mut v = Cbor::Major5(Info::Tiny(0), vec![]);
    for _ in 1..depth {
        v = Cbor::Major4(Info::Tiny(1), vec![v]);
    }
    let mut expected = vec![0x81; depth - 1];
    expected.push(0xa0);
    let mut buf = Vec::new();
    assert_eq!(v.encode(&mut buf), Ok(depth));
    assert_eq!(buf, expected);
    assert_eq!(Cbor::decode(&buf).map(|(_, n)| n), Ok(depth));

    let mut w = Cbor::Major5(Info::Tiny(1), vec![(Key::U64(0), Cbor::Major0(Info::Tiny(0), 0))]);
    for _ in 1..depth {
        w = Cbor::Major4(Info::Tiny(1), vec![w]);
    }
    let mut buf = Vec::new();
    assert_eq!(w.encode(&mut buf), Err(Error::FailCbor));
}

#[test]
fn too_deep_leaves_buffer_alone() {
    let mut buf = vec![0x01];
    let v = Cbor::Major4(Info::Tiny(1), vec![Cbor::Major0(Info::Tiny(1), 1)]);
    let mut outer = v;
    for _ in 0..RECURSION_LIMIT {
        outer = Cbor::Major4(Info::Tiny(1), vec![outer]);
    }
    assert_eq!(outer.encode(&mut buf), Err(Error::FailCbor));
    assert_eq!(&buf[..1], &[0x01]);
}
