//! The malformed inputs the grammar forbids, each rejected with the error it
//! names, and the navigation behavior on adversarial buffers.

use rlp::{decode, DecoderError, Encodable, Rlp, RlpStream};

#[test]
fn length_overflow() {
    let bs = [0xbf, 0xff, 0xff, 0xff, 0xff, 0xff, 0xff, 0xff, 0xff, 0xff, 0xff, 0xff, 0xe5];
    let rlp = Rlp::new(&bs);
    let res: Result<u8, DecoderError> = rlp.as_val();
    assert_eq!(
        Err(DecoderError::RlpInvalidLength {
            expected: usize::MAX,
            got: usize::MAX
        }),
        res
    );
}

#[test]
fn at_overflow() {
    let bs = vec![vec![1], vec![2, 3, 4], vec![3]].rlp_bytes();
    let rlp = Rlp::new(&*bs);
    let first_element: Result<Vec<u8>, _> = rlp.at(2).and_then(|elem| elem.as_val());
    assert_eq!(Ok(vec![3]), first_element);

    let fourth_element: Result<Vec<u8>, _> = rlp.at(3).and_then(|elem| elem.as_val());
    assert_eq!(
        Err(DecoderError::RlpIsTooShort {
            expected: 7,
            got: 6
        }),
        fourth_element
    );
}

#[test]
fn invalid_length_rlp_at_overflow() {
    // [1,2,3,4] with invalid byte length 3
    let bs = [0xc3, 0x01, 0x02, 0x03, 0x04];
    let rlp = Rlp::new(&bs);
    let first_element: Result<u8, _> = rlp.at(2).and_then(|elem| elem.as_val());
    assert_eq!(Ok(3), first_element);

    let fourth_element: Result<u8, _> = rlp.at(3).and_then(|elem| elem.as_val());
    assert_eq!(
        Err(DecoderError::RlpIsTooShort {
            expected: 4,
            got: 3
        }),
        fourth_element
    );
}

#[test]
fn adversarial_list_respects_declared_payload() {
    // header claims 3 payload bytes but 4 follow
    let bs = [0xc3, 0x01, 0x02, 0x03, 0x04];
    let rlp = Rlp::new(&bs);
    for k in 0..3u8 {
        let v: Result<u8, _> = rlp.at(k as usize).and_then(|elem| elem.as_val());
        assert_eq!(Ok(k + 1), v);
    }
    assert_eq!(Ok(3), rlp.item_count());
}

#[test]
fn single_byte_behind_prefix_is_rejected() {
    for x in [0x00u8, 0x01, 0x42, 0x7f] {
        let bs = [0x81, x];
        assert_eq!(Err(DecoderError::RlpInvalidIndirection), decode::<u8>(&bs));
        assert_eq!(Err(DecoderError::RlpInvalidIndirection), decode::<u16>(&bs));
        assert_eq!(Err(DecoderError::RlpInvalidIndirection), decode::<u32>(&bs));
        assert_eq!(Err(DecoderError::RlpInvalidIndirection), decode::<u64>(&bs));
        assert_eq!(Err(DecoderError::RlpInvalidIndirection), decode::<usize>(&bs));
        assert_eq!(
            Err(DecoderError::RlpInvalidIndirection),
            decode::<rlp::U256>(&bs)
        );
    }
}

#[test]
fn wide_payload_is_too_big() {
    assert_eq!(Err(DecoderError::RlpIsTooBig), decode::<u8>(&[0x82, 1, 2]));
    assert_eq!(Err(DecoderError::RlpIsTooBig), decode::<u16>(&[0x83, 1, 2, 3]));
    assert_eq!(
        Err(DecoderError::RlpIsTooBig),
        decode::<u32>(&[0x85, 1, 2, 3, 4, 5])
    );
    assert_eq!(
        Err(DecoderError::RlpIsTooBig),
        decode::<u64>(&[0x89, 1, 2, 3, 4, 5, 6, 7, 8, 9])
    );
    let mut wide = vec![0xa1u8];
    wide.extend(std::iter::repeat(1u8).take(33));
    assert_eq!(Err(DecoderError::RlpIsTooBig), decode::<rlp::U256>(&wide));
    assert_eq!(Err(DecoderError::RlpIsTooBig), decode::<bool>(&[0x82, 1, 1]));
}

#[test]
fn zero_prefixed_length_is_rejected() {
    assert_eq!(
        Err(DecoderError::RlpDataLenWithZeroPrefix),
        rlp::PayloadInfo::from(&[0xb8, 0x00, 0x41])
    );
    assert_eq!(
        Err(DecoderError::RlpDataLenWithZeroPrefix),
        rlp::PayloadInfo::from(&[0xf8, 0x00])
    );
    assert_eq!(
        Err(DecoderError::RlpDataLenWithZeroPrefix),
        Rlp::new(&[0xbf, 0x00, 1, 2, 3]).payload_info()
    );
}

#[test]
fn long_form_for_short_payload_is_rejected() {
    assert_eq!(
        Err(DecoderError::RlpInvalidIndirection),
        rlp::PayloadInfo::from(&[0xb8, 0x01, 0x41])
    );
    assert_eq!(
        Err(DecoderError::RlpInvalidIndirection),
        rlp::PayloadInfo::from(&[0xf8, 0x37])
    );
}

#[test]
fn leading_zero_integer_is_rejected() {
    assert_eq!(
        Err(DecoderError::RlpInvalidIndirection),
        decode::<u16>(&[0x82, 0x00, 0x04])
    );
    assert_eq!(
        Err(DecoderError::RlpInvalidIndirection),
        decode::<rlp::U256>(&[0x82, 0x00, 0x04])
    );
    assert_eq!(Err(DecoderError::RlpInvalidIndirection), decode::<u8>(&[0x00]));
}

#[test]
fn truncated_payload_is_inconsistent() {
    assert_eq!(
        Err(DecoderError::RlpInconsistentLengthAndData { max: 2, index: 3 }),
        decode::<Vec<u8>>(&[0x82, 0x01])
    );
}

#[test]
fn prototype_mismatch_errors() {
    assert_eq!(
        Err(DecoderError::RlpExpectedToBeList),
        Rlp::new(&[0x01]).item_count()
    );
    assert_eq!(
        Err(DecoderError::RlpExpectedToBeList),
        Rlp::new(&[0x01]).at(0).map(|_| ())
    );
    assert_eq!(Err(DecoderError::RlpExpectedToBeData), decode::<u8>(&[0xc0]));
    assert_eq!(
        Err(DecoderError::RlpExpectedToBeList),
        decode::<Option<u8>>(&[0x05])
    );
}

#[test]
fn option_list_length_must_be_small() {
    assert_eq!(
        Err(DecoderError::RlpIncorrectListLen),
        decode::<Option<u8>>(&[0xc2, 0x01, 0x02])
    );
}

#[test]
fn string_with_nul_is_rejected() {
    assert_eq!(
        Err(DecoderError::RlpNullTerminatedString),
        decode::<String>(&[0x82, b'a', 0x00])
    );
}

#[test]
fn string_with_invalid_utf8_is_rejected() {
    assert_eq!(
        Err(DecoderError::RlpExpectedToBeData),
        decode::<String>(&[0x81, 0xff])
    );
}

#[test]
fn fixed_hash_lengths_are_exact() {
    let short = [0x82u8, 1, 2];
    assert_eq!(
        Err(DecoderError::RlpIsTooShort {
            expected: 20,
            got: 2
        }),
        decode::<rlp::H160>(&short)
    );
    let mut long = vec![0x95u8];
    long.extend(std::iter::repeat(1u8).take(21));
    assert_eq!(Err(DecoderError::RlpIsTooBig), decode::<rlp::H160>(&long));
}

#[test]
fn empty_buffer_is_too_short() {
    let empty: [u8; 0] = [];
    assert_eq!(
        Err(DecoderError::RlpIsTooShort {
            expected: 1,
            got: 0
        }),
        rlp::PayloadInfo::from(&empty)
    );
    assert_eq!(
        Err(DecoderError::RlpIsTooShort {
            expected: 1,
            got: 0
        }),
        decode::<u8>(&empty)
    );
}

#[test]
fn data_on_list_fails() {
    let mut s = RlpStream::new();
    s.begin_list(0);
    let bs = s.out();
    let rlp = Rlp::new(&bs);
    assert_eq!(Err(DecoderError::RlpExpectedToBeData), rlp.data());
    assert_eq!(Ok(0), rlp.item_count());
}
