//! Round trips and concrete encodings for the standard codecs.

use rlp::{decode, encode, DecoderError, Encodable, Rlp, RlpStream};

#[test]
fn vec_of_bytes() {
    let origin: Vec<Vec<u8>> = vec![vec![0, 1, 2, 3, 4], vec![5, 6, 7], vec![], vec![8, 9]];

    let encoded = encode(&origin);

    let expected = {
        let mut s = RlpStream::new();
        s.begin_list(4);
        s.append::<Vec<u8>>(&origin[0]);
        s.append::<Vec<u8>>(&origin[1]);
        s.append::<Vec<u8>>(&origin[2]);
        s.append::<Vec<u8>>(&origin[3]);
        s.out()
    };
    assert_eq!(expected, encoded.to_vec());

    let decoded = decode::<Vec<Vec<u8>>>(&encoded);
    assert_eq!(Ok(origin), decoded);
}

#[test]
fn vec_of_bytes_header_counts_payload() {
    let origin: Vec<Vec<u8>> = vec![vec![0, 1, 2, 3, 4], vec![5, 6, 7], vec![], vec![8, 9]];
    let encoded = encode(&origin);
    assert_eq!(encoded[0] as usize, 0xc0 + (encoded.len() - 1));
}

#[test]
fn u8_zero_is_empty_data() {
    let encoded = encode(&0u8);
    assert_eq!(encoded, vec![0x80]);
    assert_eq!(Ok(0u8), decode::<u8>(&[0x80]));
}

#[test]
fn u8_single_byte_shortcut() {
    let encoded = encode(&15u8);
    assert_eq!(encoded, vec![0x0f]);
    assert_eq!(
        Err(DecoderError::RlpInvalidIndirection),
        decode::<u8>(&[0x81, 0x0f])
    );
}

#[test]
fn round_trip_bool() {
    for v in [false, true] {
        assert_eq!(Ok(v), decode::<bool>(&encode(&v)));
    }
    assert_eq!(encode(&true), vec![0x01]);
    assert_eq!(encode(&false), vec![0x00]);
}

#[test]
fn round_trip_unsigned() {
    for v in [0u8, 1, 0x7f, 0x80, 0xff] {
        assert_eq!(Ok(v), decode::<u8>(&encode(&v)));
    }
    for v in [0u16, 0x100, 0xffff] {
        assert_eq!(Ok(v), decode::<u16>(&encode(&v)));
    }
    for v in [0u32, 0x10000, 0xffff_ffff] {
        assert_eq!(Ok(v), decode::<u32>(&encode(&v)));
    }
    for v in [0u64, 0x100000000, u64::MAX] {
        assert_eq!(Ok(v), decode::<u64>(&encode(&v)));
    }
    for v in [0usize, 1024, usize::MAX] {
        assert_eq!(Ok(v), decode::<usize>(&encode(&v)));
    }
}

#[test]
fn unsigned_encodings_are_minimal_big_endian() {
    assert_eq!(encode(&0x0400u16), vec![0x82, 0x04, 0x00]);
    assert_eq!(encode(&0xffffu16), vec![0x82, 0xff, 0xff]);
    assert_eq!(encode(&0x0100_0000u32), vec![0x84, 0x01, 0x00, 0x00, 0x00]);
    assert_eq!(encode(&0x1000_0000_0000_0000u64), vec![0x88, 0x10, 0, 0, 0, 0, 0, 0, 0]);
}

#[test]
fn round_trip_bytes() {
    let v: Vec<u8> = vec![];
    assert_eq!(Ok(v.clone()), decode::<Vec<u8>>(&encode(&v)));
    let v: Vec<u8> = vec![0x7f];
    assert_eq!(Ok(v.clone()), decode::<Vec<u8>>(&encode(&v)));
    let v: Vec<u8> = vec![0x80];
    assert_eq!(encode(&v), vec![0x81, 0x80]);
    assert_eq!(Ok(v.clone()), decode::<Vec<u8>>(&encode(&v)));
    let v: Vec<u8> = (0..100u8).collect();
    let e = encode(&v);
    assert_eq!(e[0], 0xb8);
    assert_eq!(e[1], 100);
    assert_eq!(Ok(v.clone()), decode::<Vec<u8>>(&e));
}

#[test]
fn round_trip_string() {
    let s = String::from("dog");
    let e = encode(&s);
    assert_eq!(e, vec![0x83, b'd', b'o', b'g']);
    assert_eq!(Ok(s), decode::<String>(&e));
    let empty = String::new();
    assert_eq!(encode(&empty), vec![0x80]);
    assert_eq!(Ok(empty), decode::<String>(&[0x80]));
}

#[test]
fn round_trip_option() {
    let none: Option<u8> = None;
    assert_eq!(encode(&none), vec![0xc0]);
    assert_eq!(Ok(none), decode::<Option<u8>>(&encode(&none)));
    let some: Option<u8> = Some(5);
    assert_eq!(encode(&some), vec![0xc1, 0x05]);
    assert_eq!(Ok(some), decode::<Option<u8>>(&encode(&some)));
}

#[test]
fn round_trip_u256() {
    let mut raw = [0u8; 32];
    raw[31] = 123;
    let v = rlp::U256::from_slice(&raw);
    let e = encode(&v);
    assert_eq!(e, vec![0x7b]);
    assert_eq!(Ok(v), decode::<rlp::U256>(&e));

    let zero = rlp::U256::from_slice(&[0u8; 32]);
    assert_eq!(encode(&zero), vec![0x80]);
    assert_eq!(Ok(zero), decode::<rlp::U256>(&[0x80]));

    let big = rlp::U256::from_slice(&[0xabu8; 32]);
    let e = encode(&big);
    assert_eq!(e.len(), 33);
    assert_eq!(e[0], 0x80 + 32);
    assert_eq!(Ok(big), decode::<rlp::U256>(&e));
}

#[test]
fn round_trip_fixed_hashes() {
    let h = rlp::H160::from_slice(&[7u8; 20]);
    let e = encode(&h);
    assert_eq!(e[0], 0x80 + 20);
    assert_eq!(Ok(h), decode::<rlp::H160>(&e));


    let h = rlp::H256::from_slice(&[9u8; 32]);
    let e = encode(&h);
    assert_eq!(Ok(h), decode::<rlp::H256>(&e));

    let h = rlp::H520::from_slice(&[1u8; 65]);
    let e = encode(&h);
    assert_eq!(e[0], 0xb8);
    assert_eq!(e[1], 65);
    assert_eq!(Ok(h), decode::<rlp::H520>(&e));
}

#[test]
fn encoding_is_deterministic() {
    let v: Vec<Vec<u8>> = vec![vec![1, 2], vec![3]];
    assert_eq!(encode(&v), encode(&v));
    assert_eq!(encode(&42u64), v42());
    assert_eq!(encode(&42u64), v42());
}

fn v42() -> Vec<u8> {
    let mut s = RlpStream::new();
    s.append(&42u64);
    s.out()
}

#[test]
fn rlp_bytes_matches_encode() {
    let v: Vec<u8> = vec![1, 2, 3];
    assert_eq!(v.rlp_bytes(), encode(&v));
}

#[test]
fn stream_nested_lists() {
    // [[1], [2, 3, 4], [3]] built by hand, lists nested through the stream
    let mut s = RlpStream::new();
    s.begin_list(3);
    s.begin_list(1);
    s.append(&1u8);
    s.begin_list(3);
    s.append(&2u8);
    s.append(&3u8);
    s.append(&4u8);
    s.begin_list(1);
    s.append(&3u8);
    assert!(s.is_finished());
    let out = s.out();
    assert_eq!(out, vec![0xc8, 0xc1, 0x01, 0xc3, 0x02, 0x03, 0x04, 0xc1, 0x03]);
}

#[test]
fn stream_long_list_header() {
    // 60 single-byte items force the long list form
    let mut s = RlpStream::new();
    s.begin_list(60);
    for _ in 0..60 {
        s.append(&1u8);
    }
    let out = s.out();
    assert_eq!(out[0], 0xf8);
    assert_eq!(out[1], 60);
    assert_eq!(out.len(), 62);
    let rlp = Rlp::new(&out);
    assert_eq!(Ok(60), rlp.item_count());
}

#[test]
fn append_empty_data_is_0x80() {
    let mut s = RlpStream::new();
    s.append_empty_data();
    assert_eq!(s.out(), vec![0x80]);
}

#[test]
fn append_value_long_form() {
    let payload = vec![0xaau8; 56];
    let mut s = RlpStream::new();
    s.append_value(&payload);
    let out = s.out();
    assert_eq!(out[0], 0xb8);
    assert_eq!(out[1], 56);
    assert_eq!(&out[2..], &payload[..]);
}

#[test]
fn iteration_matches_indexing() {
    let origin: Vec<Vec<u8>> = vec![vec![1], vec![2, 3], vec![]];
    let encoded = encode(&origin);
    let rlp = Rlp::new(&encoded);
    let mut it = rlp.iter();
    let mut k = 0usize;
    while let Some(sub) = it.next() {
        assert_eq!(sub.as_raw(), rlp.at(k).unwrap().as_raw());
        k += 1;
    }
    assert_eq!(k, rlp.item_count().unwrap());
    assert!(rlp.at(k).is_err());
}

#[test]
fn view_classification() {
    let empty: [u8; 0] = [];
    let rlp = Rlp::new(&empty);
    assert!(rlp.is_null());
    assert!(!rlp.is_data());
    assert!(!rlp.is_list());
    assert_eq!(Ok(rlp::Prototype::Null), rlp.prototype());

    let data = [0x83u8, 1, 2, 3];
    let rlp = Rlp::new(&data);
    assert!(rlp.is_data());
    assert!(!rlp.is_list());
    assert_eq!(Ok(rlp::Prototype::Data(3)), rlp.prototype());
    assert_eq!(3, rlp.size());
    assert_eq!(Ok(&data[1..]), rlp.data());
    assert_eq!(&data[..], rlp.as_raw());

    let list = [0xc1u8, 0x05];
    let rlp = Rlp::new(&list);
    assert!(rlp.is_list());
    assert_eq!(Ok(rlp::Prototype::List(1)), rlp.prototype());
    assert_eq!(0, rlp.size());

    let empty_list = [0xc0u8];
    assert!(Rlp::new(&empty_list).is_empty());
    let empty_data = [0x80u8];
    assert!(Rlp::new(&empty_data).is_empty());
}

#[test]
fn is_int_checks_leading_byte() {
    assert!(Rlp::new(&[0x05]).is_int());
    assert!(Rlp::new(&[0x80]).is_int());
    assert!(Rlp::new(&[0x82, 0x04, 0x00]).is_int());
    assert!(!Rlp::new(&[0x82, 0x00, 0x04]).is_int());
    assert!(!Rlp::new(&[0xc0]).is_int());
    let empty: [u8; 0] = [];
    assert!(!Rlp::new(&empty).is_int());
}

#[test]
fn val_at_and_list_at() {
    // [[1, 2], [3]]
    let origin: Vec<Vec<u8>> = vec![vec![1, 2], vec![3]];
    let encoded = encode(&origin);
    let rlp = Rlp::new(&encoded);
    assert_eq!(Ok(vec![1u8, 2]), rlp.val_at::<Vec<u8>>(0));
    assert_eq!(Ok(vec![3u8]), rlp.val_at::<Vec<u8>>(1));

    let mut s = RlpStream::new();
    s.begin_list(1);
    s.append_list::<u8>(&[1, 2, 3]);
    let bs = s.out();
    let rlp = Rlp::new(&bs);
    assert_eq!(Ok(vec![1u8, 2, 3]), rlp.list_at::<u8>(0));
}

#[test]
fn decode_usize_reads_big_endian() {
    assert_eq!(Ok(1), rlp::decode_usize(&[0x01]));
    assert_eq!(Ok(0x0102), rlp::decode_usize(&[0x01, 0x02]));
    assert_eq!(
        Err(DecoderError::RlpInvalidIndirection),
        rlp::decode_usize(&[0x00, 0x01])
    );
    assert_eq!(
        Err(DecoderError::RlpIsTooBig),
        rlp::decode_usize(&[1, 2, 3, 4, 5, 6, 7, 8, 9])
    );
}

#[test]
fn payload_info_totals() {
    let info = rlp::PayloadInfo::from(&[0x83, 1, 2, 3]).unwrap();
    assert_eq!(1, info.header_len);
    assert_eq!(3, info.value_len);
    assert_eq!(4, info.total());
    let info = rlp::PayloadInfo::from(&[0x05]).unwrap();
    assert_eq!((0, 1), (info.header_len, info.value_len));
}

#[test]
fn repeated_navigation_is_stable() {
    let origin: Vec<Vec<u8>> = vec![vec![1], vec![2, 3]];
    let encoded = encode(&origin);
    let rlp = Rlp::new(&encoded);
    let a = rlp.at(1).unwrap().as_raw().to_vec();
    let b = rlp.at(0).unwrap().as_raw().to_vec();
    let c = rlp.at(1).unwrap().as_raw().to_vec();
    assert_eq!(a, c);
    assert_eq!(b, rlp.at(0).unwrap().as_raw().to_vec());
    assert_eq!(Ok(2), rlp.item_count());
    assert_eq!(Ok(2), rlp.item_count());
}

#[test]
fn str_and_slice_encode_like_their_owners() {
    assert_eq!(encode(&"dog"), encode(&String::from("dog")));
    let b: &[u8] = &[1u8, 2, 3];
    assert_eq!(encode(&b), encode(&vec![1u8, 2, 3]));
}
