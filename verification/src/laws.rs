//! The laws the codec obeys, stated and proved once and for all: every
//! canonical encoding decodes back to the value it came from, encoding is
//! deterministic, and each non-canonical input variant is rejected with the
//! error the grammar names.

use vstd::prelude::*;

use crate::error::DecoderError;
use crate::grammar::{
    be_bytes, be_len, be_val, decode_usize_spec, enc_data, enc_list_payload,
    lemma_be_bytes_first_nonzero, lemma_be_bytes_len, lemma_be_bytes_val, lemma_be_len_le,
    lemma_value_payload_of_enc_data, lemma_word_bytes, payload_info_from_spec, pow256,
    value_payload, word_bytes, PayloadInfo,
};
use crate::impls::decoded_uint_payload;
use crate::traits::{Decodable, Encodable};
use crate::uint::{FixedBytes, U256};

verus! {

// ---------------------------------------------------------------------------
// Round trips: decoding an encoding gives the value back
// ---------------------------------------------------------------------------

/// The platform word is wide enough for every small payload this module
/// builds.
proof fn lemma_small_fits(n: nat)
    requires
        n + 9 <= 0xffff_ffff,
    ensures
        n + 9 <= usize::MAX,
{
    lemma_word_bytes();
}

/// Round trip for booleans.
pub proof fn lemma_round_trip_bool(v: bool)
    ensures
        <bool as Decodable>::rlp_decoded(v.rlp_encoding()) == Ok::<bool, DecoderError>(v),
{
    lemma_small_fits(1);
    if v {
        lemma_value_payload_of_enc_data(seq![1u8]);
    } else {
        lemma_value_payload_of_enc_data(seq![0u8]);
    }
}

/// Round trip for one-byte integers. Zero is carried as the empty payload.
pub proof fn lemma_round_trip_u8(v: u8)
    ensures
        <u8 as Decodable>::rlp_decoded(v.rlp_encoding()) == Ok::<u8, DecoderError>(v),
{
    lemma_small_fits(1);
    if v == 0 {
        lemma_value_payload_of_enc_data(Seq::<u8>::empty());
    } else {
        lemma_value_payload_of_enc_data(seq![v]);
    }
}

/// Decoding the minimal big-endian payload of a value in range gives the
/// value back.
proof fn lemma_uint_payload_round_trip(n: nat, width: nat)
    requires
        1 <= width <= 8,
        n < pow256(width),
    ensures
        decoded_uint_payload(be_bytes(n), width) == Ok::<u64, DecoderError>((n as u64)),
{
    lemma_be_bytes_len(n);
    lemma_be_len_le(n, width);
    lemma_be_bytes_val(n);
    assert(pow256(8) == 0x1_0000_0000_0000_0000) by {
        reveal_with_fuel(pow256, 9);
    };
    crate::grammar::lemma_pow256_le(width, 8);
    if n == 0 {
        assert(be_bytes(n) =~= Seq::<u8>::empty());
    } else if n < 256 {
        assert(be_bytes(0nat) =~= Seq::<u8>::empty());
        assert(be_bytes(n) =~= Seq::<u8>::empty().push((n % 256) as u8));
        assert(be_bytes(n)[0] == (n % 256) as u8);
        assert(n % 256 == n);
    } else {
        assert(be_len(n) == 1 + be_len(n / 256));
        assert(be_len(n / 256) == 1 + be_len(n / 256 / 256));
        assert(be_bytes(n).len() >= 2);
        lemma_be_bytes_first_nonzero(n);
    }
}

/// Round trip for 16-bit integers.
pub proof fn lemma_round_trip_u16(v: u16)
    ensures
        <u16 as Decodable>::rlp_decoded(v.rlp_encoding()) == Ok::<u16, DecoderError>(v),
{
    lemma_be_bytes_len(v as nat);
    assert(pow256(2) == 0x1_0000) by {
        reveal_with_fuel(pow256, 3);
    };
    lemma_be_len_le(v as nat, 2);
    lemma_small_fits(be_bytes(v as nat).len());
    lemma_value_payload_of_enc_data(be_bytes(v as nat));
    lemma_uint_payload_round_trip(v as nat, 2);
}

/// Round trip for 32-bit integers.
pub proof fn lemma_round_trip_u32(v: u32)
    ensures
        <u32 as Decodable>::rlp_decoded(v.rlp_encoding()) == Ok::<u32, DecoderError>(v),
{
    lemma_be_bytes_len(v as nat);
    assert(pow256(4) == 0x1_0000_0000) by {
        reveal_with_fuel(pow256, 5);
    };
    lemma_be_len_le(v as nat, 4);
    lemma_small_fits(be_bytes(v as nat).len());
    lemma_value_payload_of_enc_data(be_bytes(v as nat));
    lemma_uint_payload_round_trip(v as nat, 4);
}

/// Round trip for 64-bit integers.
pub proof fn lemma_round_trip_u64(v: u64)
    ensures
        <u64 as Decodable>::rlp_decoded(v.rlp_encoding()) == Ok::<u64, DecoderError>(v),
{
    lemma_word_bytes();
    lemma_be_bytes_len(v as nat);
    lemma_be_len_le(v as nat, 8);
    lemma_small_fits(be_bytes(v as nat).len());
    lemma_value_payload_of_enc_data(be_bytes(v as nat));
    lemma_uint_payload_round_trip(v as nat, 8);
}

/// Round trip for machine-sized integers.
pub proof fn lemma_round_trip_usize(v: usize)
    ensures
        <usize as Decodable>::rlp_decoded(v.rlp_encoding()) == Ok::<usize, DecoderError>(v),
{
    lemma_word_bytes();
    lemma_be_bytes_len(v as nat);
    lemma_be_len_le(v as nat, 8);
    crate::grammar::lemma_pow256_le(word_bytes(), 8);
    lemma_small_fits(be_bytes(v as nat).len());
    lemma_value_payload_of_enc_data(be_bytes(v as nat));
    lemma_uint_payload_round_trip(v as nat, 8);
}

/// Round trip for byte strings: the payload is carried verbatim. The bound
/// keeps the whole encoding addressable on the platform.
pub proof fn lemma_round_trip_bytes(v: Seq<u8>)
    requires
        v.len() + 9 <= usize::MAX,
    ensures
        <Vec<u8> as Decodable>::rlp_decoded(enc_data(v)) == Ok::<Seq<u8>, DecoderError>(v),
{
    lemma_value_payload_of_enc_data(v);
}

/// Round trip for 256-bit integers: the stripped payload pads back to the
/// same 32 bytes.
pub proof fn lemma_round_trip_u256(v: &U256)
    requires
        v.wf(),
    ensures
        <U256 as Decodable>::rlp_decoded(v.rlp_encoding()) == Ok::<Seq<u8>, DecoderError>(v@),
{
    let p = be_bytes(v.value());
    lemma_be_bytes_len(v.value());
    crate::grammar::lemma_be_val_bound(v@);
    lemma_be_len_le(v.value(), 32);
    lemma_small_fits(p.len());
    lemma_value_payload_of_enc_data(p);
    if v.value() > 0 {
        lemma_be_bytes_first_nonzero(v.value());
    }
    crate::uint::lemma_be_pad_back(v@);
    assert(Seq::new((32 - p.len()) as nat, |i: int| 0u8) + p == v@);
}

/// Round trip for fixed-size byte strings.
pub proof fn lemma_round_trip_fixed<const N: usize>(v: &FixedBytes<N>)
    requires
        v.wf(),
        N + 9 <= usize::MAX,
    ensures
        <FixedBytes<N> as Decodable>::rlp_decoded(v.rlp_encoding()) == Ok::<
            Seq<u8>,
            DecoderError,
        >(v@),
{
    lemma_value_payload_of_enc_data(v@);
}

// ---------------------------------------------------------------------------
// Canonicalization: one value, one byte sequence
// ---------------------------------------------------------------------------

/// Encoding is deterministic: every run of the encoder on the same value
/// produces the same bytes, because what `encode` returns is a function of
/// the value alone.
pub proof fn lemma_canonical_encoding<E: Encodable>(v: &E, r1: Seq<u8>, r2: Seq<u8>)
    requires
        r1 == v.rlp_encoding(),
        r2 == v.rlp_encoding(),
    ensures
        r1 == r2,
{
}

// ---------------------------------------------------------------------------
// Rejection laws
// ---------------------------------------------------------------------------

/// A single byte below 0x80 behind a length prefix is non-canonical: every
/// integer decoder rejects `0x81 x` with `RlpInvalidIndirection`.
pub proof fn lemma_single_byte_indirection(x: u8)
    requires
        x < 0x80,
    ensures
        value_payload(seq![0x81u8, x]) == Err::<Seq<u8>, DecoderError>(
            DecoderError::RlpInvalidIndirection,
        ),
        <u8 as Decodable>::rlp_decoded(seq![0x81u8, x]) == Err::<u8, DecoderError>(
            DecoderError::RlpInvalidIndirection,
        ),
        <u16 as Decodable>::rlp_decoded(seq![0x81u8, x]) == Err::<u16, DecoderError>(
            DecoderError::RlpInvalidIndirection,
        ),
        <u32 as Decodable>::rlp_decoded(seq![0x81u8, x]) == Err::<u32, DecoderError>(
            DecoderError::RlpInvalidIndirection,
        ),
        <u64 as Decodable>::rlp_decoded(seq![0x81u8, x]) == Err::<u64, DecoderError>(
            DecoderError::RlpInvalidIndirection,
        ),
        <usize as Decodable>::rlp_decoded(seq![0x81u8, x]) == Err::<usize, DecoderError>(
            DecoderError::RlpInvalidIndirection,
        ),
        <U256 as Decodable>::rlp_decoded(seq![0x81u8, x]) == Err::<Seq<u8>, DecoderError>(
            DecoderError::RlpInvalidIndirection,
        ),
{
    let b = seq![0x81u8, x];
    assert(b.len() == 2);
    assert(b[0] == 0x81);
    assert(b.subrange(1, 2) =~= seq![x]);
}

/// A payload wider than the target integer is rejected with `RlpIsTooBig`,
/// whatever the bytes hold.
pub proof fn lemma_wide_payload_too_big(b: Seq<u8>, d: Seq<u8>)
    requires
        value_payload(b) == Ok::<Seq<u8>, DecoderError>(d),
    ensures
        d.len() > 1 ==> <u8 as Decodable>::rlp_decoded(b) == Err::<u8, DecoderError>(
            DecoderError::RlpIsTooBig,
        ),
        d.len() > 2 ==> <u16 as Decodable>::rlp_decoded(b) == Err::<u16, DecoderError>(
            DecoderError::RlpIsTooBig,
        ),
        d.len() > 4 ==> <u32 as Decodable>::rlp_decoded(b) == Err::<u32, DecoderError>(
            DecoderError::RlpIsTooBig,
        ),
        d.len() > 8 ==> <u64 as Decodable>::rlp_decoded(b) == Err::<u64, DecoderError>(
            DecoderError::RlpIsTooBig,
        ),
        d.len() > 8 ==> <usize as Decodable>::rlp_decoded(b) == Err::<usize, DecoderError>(
            DecoderError::RlpIsTooBig,
        ),
        d.len() > 32 && d[0] != 0 ==> <U256 as Decodable>::rlp_decoded(b) == Err::<
            Seq<u8>,
            DecoderError,
        >(DecoderError::RlpIsTooBig),
{
}

/// For every long-form prefix, a zero first length byte is rejected with
/// `RlpDataLenWithZeroPrefix` by the header grammar.
pub proof fn lemma_zero_length_prefix(b: Seq<u8>)
    requires
        b.len() >= 2,
        0xb8 <= b[0] <= 0xbf || 0xf8 <= b[0],
        b[1] == 0,
    ensures
        payload_info_from_spec(b) == Err::<PayloadInfo, DecoderError>(
            DecoderError::RlpDataLenWithZeroPrefix,
        ),
{
}

/// A long-form header whose decoded length needed no long form is rejected
/// with `RlpInvalidIndirection` by the header grammar.
pub proof fn lemma_long_form_short_length(b: Seq<u8>, len_of_len: nat)
    requires
        b.len() >= 2,
        0xb8 <= b[0] <= 0xbf ==> len_of_len == b[0] - 0xb7,
        0xf8 <= b[0] ==> len_of_len == b[0] - 0xf7,
        0xb8 <= b[0] <= 0xbf || 0xf8 <= b[0],
        b.len() >= 1 + len_of_len,
        b[1] != 0,
        len_of_len <= word_bytes(),
        be_val(b.subrange(1, 1 + len_of_len as int)) <= 55,
    ensures
        payload_info_from_spec(b) == Err::<PayloadInfo, DecoderError>(
            DecoderError::RlpInvalidIndirection,
        ),
{
    let lb = b.subrange(1, 1 + len_of_len as int);
    assert(lb.len() == len_of_len);
    assert(lb[0] == b[1]);
    assert(decode_usize_spec(lb) == Ok::<usize, DecoderError>((be_val(lb) as usize)));
    lemma_word_bytes();
    crate::grammar::lemma_be_val_bound(lb);
    crate::grammar::lemma_pow256_le(lb.len(), word_bytes());
    assert((be_val(lb) as usize) <= 55);
}

// ---------------------------------------------------------------------------
// Navigation is pure
// ---------------------------------------------------------------------------

/// Navigation changes nothing observable: every operation of a view is a
/// function of the raw bytes alone, so repeated `at` calls with the same or
/// any other index return identical bytes, and two views over identical bytes
/// agree on every operation, whatever was navigated before.
pub proof fn lemma_views_observationally_equal(b1: Seq<u8>, b2: Seq<u8>)
    requires
        b1 == b2,
    ensures
        forall|i: nat| crate::rlpin::at_spec(b1, i) == crate::rlpin::at_spec(b2, i),
        crate::rlpin::item_count_spec(b1) == crate::rlpin::item_count_spec(b2),
        crate::rlpin::data_spec(b1) == crate::rlpin::data_spec(b2),
        crate::rlpin::size_spec(b1) == crate::rlpin::size_spec(b2),
        crate::rlpin::prototype_spec(b1) == crate::rlpin::prototype_spec(b2),
        value_payload(b1) == value_payload(b2),
{
}

// ---------------------------------------------------------------------------
// Iteration and indexing cohere on canonical lists
// ---------------------------------------------------------------------------

/// A byte string is delimited when its header declares exactly its own
/// extent, whatever follows it in a buffer. Every canonical encoding is.
pub open spec fn delimited(c: Seq<u8>) -> bool {
    &&& 1 <= c.len()
    &&& forall|rest: Seq<u8>|
        c.len() + rest.len() <= usize::MAX ==> match #[trigger] payload_info_from_spec(c + rest) {
            Ok(pi) => pi.header_len + pi.value_len == c.len(),
            Err(_) => false,
        }
}

/// The canonical encoding of a data payload is delimited.
pub proof fn lemma_enc_data_delimited(p: Seq<u8>)
    ensures
        delimited(enc_data(p)),
{
    let c = enc_data(p);
    assert(c == crate::grammar::enc_item(crate::grammar::Item::Data(p)));
    assert forall|rest: Seq<u8>| c.len() + rest.len() <= usize::MAX implies match payload_info_from_spec(
        c + rest,
    ) {
        Ok(pi) => pi.header_len + pi.value_len == c.len(),
        Err(_) => false,
    } by {
        crate::grammar::lemma_payload_info_of_enc(crate::grammar::Item::Data(p), rest);
    }
}

/// The canonical encoding of a list payload is delimited.
pub proof fn lemma_enc_list_delimited(p: Seq<u8>)
    ensures
        delimited(enc_list_payload(p)),
{
    let c = enc_list_payload(p);
    assert forall|rest: Seq<u8>| c.len() + rest.len() <= usize::MAX implies match payload_info_from_spec(
        c + rest,
    ) {
        Ok(pi) => pi.header_len + pi.value_len == c.len(),
        Err(_) => false,
    } by {
        crate::grammar::lemma_payload_info_of_header(0xc0, p, rest);
        assert((crate::grammar::header_seq(0xc0, p.len()) + p) + rest =~= c + rest);
    }
}

/// The concatenation of the members of `cs` from index `k` on.
pub open spec fn cat_from(cs: Seq<Seq<u8>>, k: nat) -> Seq<u8>
    decreases cs.len() - k,
{
    if k >= cs.len() {
        Seq::empty()
    } else {
        cs[k as int] + cat_from(cs, k + 1)
    }
}

/// Concatenating from the front is flattening.
pub proof fn lemma_cat_from_flatten(cs: Seq<Seq<u8>>, k: nat)
    requires
        k <= cs.len(),
    ensures
        cat_from(cs, k) == cs.skip(k as int).flatten(),
    decreases cs.len() - k,
{
    if k == cs.len() {
        assert(cs.skip(k as int) =~= Seq::<Seq<u8>>::empty());
        assert(Seq::<Seq<u8>>::empty().flatten() =~= Seq::<u8>::empty());
    } else {
        lemma_cat_from_flatten(cs, k + 1);
        assert(cs.skip(k as int).first() == cs[k as int]);
        assert(cs.skip(k as int).drop_first() =~= cs.skip(k as int + 1));
        assert(cs.skip(k as int).flatten() == cs.skip(k as int).first() + cs.skip(
            k as int,
        ).drop_first().flatten());
    }
}

/// Skipping `j` items from the tail of a canonical payload lands exactly on
/// the next child boundary.
proof fn lemma_consume_cat(cs: Seq<Seq<u8>>, k: nat, j: nat)
    requires
        forall|i: int| 0 <= i < cs.len() ==> delimited(#[trigger] cs[i]),
        k + j <= cs.len(),
        cat_from(cs, k).len() <= usize::MAX,
    ensures
        crate::rlpin::consume_items_spec(cat_from(cs, k), j) == Ok::<(Seq<u8>, nat), DecoderError>(
            (cat_from(cs, k + j), (cat_from(cs, k).len() - cat_from(cs, k + j).len()) as nat),
        ),
        cat_from(cs, k + j).len() <= cat_from(cs, k).len(),
    decreases j,
{
    if j == 0 {
        assert(crate::rlpin::consume_items_spec(cat_from(cs, k), 0) == Ok::<
            (Seq<u8>, nat),
            DecoderError,
        >((cat_from(cs, k), 0nat)));
    } else {
        let c = cs[k as int];
        let tail = cat_from(cs, k + 1);
        assert(cat_from(cs, k) == c + tail);
        assert(delimited(c));
        assert(match payload_info_from_spec(c + tail) {
            Ok(pi) => pi.header_len + pi.value_len == c.len(),
            Err(_) => false,
        });
        let pi = crate::grammar::payload_info_from_spec(c + tail)->Ok_0;
        assert(crate::grammar::checked_payload_info(c + tail) == Ok::<PayloadInfo, DecoderError>(
            pi,
        ));
        assert((c + tail).skip(c.len() as int) =~= tail);
        lemma_consume_cat(cs, k + 1, (j - 1) as nat);
        assert(crate::rlpin::consume_items_spec(cat_from(cs, k), j) == Ok::<
            (Seq<u8>, nat),
            DecoderError,
        >((cat_from(cs, k + j), (cat_from(cs, k).len() - cat_from(cs, k + j).len()) as nat)));
    }
}

/// Counting from a child boundary counts the children that remain.
proof fn lemma_count_cat(cs: Seq<Seq<u8>>, k: nat, h: nat)
    requires
        forall|i: int| 0 <= i < cs.len() ==> delimited(#[trigger] cs[i]),
        k <= cs.len(),
        h + cat_from(cs, 0).len() <= usize::MAX,
        h >= 1,
    ensures
        crate::rlpin::count_items_from(
            cat_from(cs, k),
            (h + cat_from(cs, 0).len() - cat_from(cs, k).len()) as nat,
            (h + cat_from(cs, 0).len() - 1) as nat,
        ) == cs.len() - k,
    decreases cs.len() - k,
{
    let total = cat_from(cs, 0).len();
    let off = (h + total - cat_from(cs, k).len()) as nat;
    let max = (h + total - 1) as nat;
    lemma_cat_len_mono(cs, k);
    if k == cs.len() {
        assert(cat_from(cs, k).len() == 0);
        assert(off > max);
    } else {
        let c = cs[k as int];
        let tail = cat_from(cs, k + 1);
        assert(cat_from(cs, k) == c + tail);
        assert(delimited(c));
        assert(cat_from(cs, k).len() >= 1);
        assert(off <= max);
        assert(match payload_info_from_spec(c + tail) {
            Ok(pi) => pi.header_len + pi.value_len == c.len(),
            Err(_) => false,
        });
        let pi = crate::grammar::payload_info_from_spec(c + tail)->Ok_0;
        assert(crate::grammar::checked_payload_info(c + tail) == Ok::<PayloadInfo, DecoderError>(
            pi,
        ));
        assert((c + tail).skip(c.len() as int) =~= tail);
        lemma_count_cat(cs, k + 1, h);
    }
}

/// The tail concatenations only shrink.
proof fn lemma_cat_len_mono(cs: Seq<Seq<u8>>, k: nat)
    requires
        k <= cs.len(),
    ensures
        cat_from(cs, k).len() <= cat_from(cs, 0).len(),
    decreases k,
{
    if k > 0 {
        lemma_cat_len_mono(cs, (k - 1) as nat);
        assert(cat_from(cs, (k - 1) as nat).len() >= cat_from(cs, k).len()) by {
            if (k - 1) as nat >= cs.len() {
            } else {
                assert(cat_from(cs, (k - 1) as nat) == cs[k - 1] + cat_from(cs, k));
            }
        };
    }
}

/// Iteration and indexing cohere: on the canonical encoding of a list of
/// delimited children, `item_count` is the number of children, `at(k)` is
/// exactly the `k`-th child for each of them, and `at(count)` fails with
/// `RlpIsTooShort`. The iterator walks `at(0), at(1), ...` and stops at that
/// first error, so it yields exactly the same sequence of sub-views.
pub proof fn lemma_list_navigation(cs: Seq<Seq<u8>>, b: Seq<u8>)
    requires
        forall|i: int| 0 <= i < cs.len() ==> delimited(#[trigger] cs[i]),
        b == enc_list_payload(cs.flatten()),
        b.len() <= usize::MAX,
    ensures
        crate::rlpin::item_count_spec(b) == Ok::<usize, DecoderError>(cs.len() as usize),
        crate::rlpin::list_count(b) == cs.len(),
        forall|k: int|
            0 <= k < cs.len() ==> crate::rlpin::at_spec(b, k as nat) == Ok::<Seq<u8>, DecoderError>(
                #[trigger] cs[k],
            ),
        crate::rlpin::at_spec(b, cs.len()) == Err::<Seq<u8>, DecoderError>(
            DecoderError::RlpIsTooShort {
                expected: b.len() as usize,
                got: (b.len() - 1) as usize,
            },
        ),
{
    let p = cs.flatten();
    let hs = crate::grammar::header_seq(0xc0, p.len());
    let h = hs.len();
    assert(b == hs + p);
    crate::grammar::lemma_payload_info_of_header(0xc0, p, Seq::empty());
    assert((hs + p) + Seq::<u8>::empty() =~= b);
    let pi = PayloadInfo { header_len: h as usize, value_len: p.len() as usize };
    assert(payload_info_from_spec(b) == Ok::<PayloadInfo, DecoderError>(pi));
    assert(crate::grammar::checked_payload_info(b) == Ok::<PayloadInfo, DecoderError>(pi));
    assert(b[0] >= 0xc0) by {
        lemma_word_bytes();
        lemma_be_len_le(p.len(), word_bytes());
        if p.len() <= 55 {
            assert(hs == seq![(0xc0 + p.len()) as u8]);
        } else {
            assert(hs[0] == (0xc0 as nat + 55 + be_len(p.len())) as u8);
        }
    };
    assert(crate::rlpin::is_list_spec(b));
    lemma_cat_from_flatten(cs, 0);
    assert(cs.skip(0) =~= cs);
    assert(cat_from(cs, 0) == p);
    let payload = b.subrange(h as int, (h + p.len()) as int);
    assert(payload =~= p);
    assert(h >= 1);

    // the count
    lemma_count_cat(cs, 0, h as nat);
    assert(crate::rlpin::list_count(b) == cs.len());

    // each child
    assert forall|k: int| 0 <= k < cs.len() implies crate::rlpin::at_spec(b, k as nat) == Ok::<
        Seq<u8>,
        DecoderError,
    >(cs[k]) by {
        lemma_consume_cat(cs, 0, k as nat);
        lemma_cat_len_mono(cs, k as nat);
        let restk = cat_from(cs, k as nat);
        let consumed = (p.len() - restk.len()) as nat;
        let c = cs[k];
        let tail = cat_from(cs, (k + 1) as nat);
        assert(restk == c + tail);
        assert(restk.len() >= 1);
        assert(h + consumed <= h + p.len() - 1);
        assert(delimited(c));
        assert(match payload_info_from_spec(c + tail) {
            Ok(fpi) => fpi.header_len + fpi.value_len == c.len(),
            Err(_) => false,
        });
        let fpi = crate::grammar::payload_info_from_spec(c + tail)->Ok_0;
        assert(crate::grammar::checked_payload_info(restk) == Ok::<PayloadInfo, DecoderError>(
            fpi,
        ));
        assert(restk.subrange(0, c.len() as int) =~= c);
    }

    // one past the end
    lemma_consume_cat(cs, 0, cs.len());
    assert(cat_from(cs, cs.len()) =~= Seq::<u8>::empty());
    assert(h + p.len() == b.len());
}

// ---------------------------------------------------------------------------
// Round trips through lists
// ---------------------------------------------------------------------------

/// Decoding the children of a canonical list of byte strings yields the byte
/// strings, from child `k` on.
proof fn lemma_decode_children_bytes(vs: Seq<Vec<u8>>, b: Seq<u8>, k: nat)
    requires
        k <= vs.len(),
        b.len() + 8 <= usize::MAX,
        forall|j: int|
            0 <= j < vs.len() ==> crate::rlpin::at_spec(b, j as nat) == Ok::<Seq<u8>, DecoderError>(
                #[trigger] vs[j].rlp_encoding(),
            ),
        forall|j: int| 0 <= j < vs.len() ==> (#[trigger] vs[j].rlp_encoding()).len() < b.len(),
    ensures
        crate::traits::decode_children::<Vec<u8>>(b, k, vs.len() as nat) == Ok::<
            Seq<Seq<u8>>,
            DecoderError,
        >(Seq::new((vs.len() - k) as nat, |i: int| vs[k + i]@)),
    decreases vs.len() - k,
{
    if k < vs.len() {
        let c = vs[k as int].rlp_encoding();
        assert(c == enc_data(vs[k as int]@));
        assert(vs[k as int]@.len() + 9 <= usize::MAX) by {
            assert(vs[k as int]@.len() <= c.len());
        };
        lemma_value_payload_of_enc_data(vs[k as int]@);
        lemma_decode_children_bytes(vs, b, k + 1);
        assert(Seq::new((vs.len() - k) as nat, |i: int| vs[k + i]@) =~= seq![vs[k as int]@]
            + Seq::new((vs.len() - k - 1) as nat, |i: int| vs[k + 1 + i]@));
    } else {
        assert(Seq::new(0nat, |i: int| vs[k + i]@) =~= Seq::<Seq<u8>>::empty());
    }
}

/// Round trip for lists of byte strings. The bound keeps the whole encoding
/// addressable on the platform.
pub proof fn lemma_round_trip_vec_of_bytes(v: &Vec<Vec<u8>>)
    requires
        v.rlp_encoding().len() + 8 <= usize::MAX,
    ensures
        <Vec<Vec<u8>> as Decodable>::rlp_decoded(v.rlp_encoding()) == Ok::<
            Seq<Seq<u8>>,
            DecoderError,
        >(v.deep_view()),
{
    let cs = crate::traits::encodings_of::<Vec<u8>>(v@);
    assert forall|i: int| 0 <= i < cs.len() implies delimited(#[trigger] cs[i]) by {
        assert(cs[i] == v@[i].rlp_encoding());
        lemma_enc_data_delimited(v@[i]@);
    }
    let b = v.rlp_encoding();
    assert(b == enc_list_payload(cs.flatten()));
    lemma_list_navigation(cs, b);
    assert forall|j: int| 0 <= j < v@.len() implies (#[trigger] v@[j].rlp_encoding()).len()
        < b.len() by {
        assert(cs[j] == v@[j].rlp_encoding());
        cs.lemma_flatten_length_ge_single_element_length(j);
        cs.lemma_flatten_and_flatten_alt_are_equivalent();
        assert(crate::grammar::header_seq(0xc0, cs.flatten().len()).len() >= 1);
    }
    assert forall|j: int| 0 <= j < v@.len() implies crate::rlpin::at_spec(b, j as nat) == Ok::<
        Seq<u8>,
        DecoderError,
    >(#[trigger] v@[j].rlp_encoding()) by {
        assert(cs[j] == v@[j].rlp_encoding());
    }
    lemma_decode_children_bytes(v@, b, 0);
    assert(Seq::new(v@.len(), |i: int| v@[0 + i]@) =~~= v.deep_view());
}

/// Round trip for optional values, given the round trip of the value inside.
pub proof fn lemma_round_trip_option<T: Encodable + Decodable>(v: &Option<T>)
    requires
        v matches Some(x) ==> {
            &&& delimited(x.rlp_encoding())
            &&& <T as Decodable>::rlp_decoded(x.rlp_encoding()) == Ok::<
                <T as DeepView>::V,
                DecoderError,
            >(x.deep_view())
            &&& x.rlp_encoding().len() + 9 <= usize::MAX
        },
    ensures
        <Option<T> as Decodable>::rlp_decoded(v.rlp_encoding()) == Ok::<
            Option<<T as DeepView>::V>,
            DecoderError,
        >(v.deep_view()),
{
    lemma_word_bytes();
    match v {
        Option::None => {
            let cs = Seq::<Seq<u8>>::empty();
            assert(cs.flatten() =~= Seq::<u8>::empty());
            let b = v.rlp_encoding();
            assert(b == enc_list_payload(cs.flatten()));
            assert(b.len() == 1);
            lemma_list_navigation(cs, b);
        },
        Option::Some(x) => {
            let cs = seq![x.rlp_encoding()];
            cs.lemma_flatten_one_element();
            assert(cs.first() == x.rlp_encoding());
            let b = v.rlp_encoding();
            assert(b == enc_list_payload(cs.flatten()));
            assert(b.len() <= x.rlp_encoding().len() + 9) by {
                lemma_be_len_le(x.rlp_encoding().len(), word_bytes());
                crate::grammar::lemma_be_bytes_len(x.rlp_encoding().len());
            };
            lemma_list_navigation(cs, b);
            assert(crate::rlpin::at_spec(b, 0) == Ok::<Seq<u8>, DecoderError>(cs[0]));
        },
    }
}

// ---------------------------------------------------------------------------
// Round trip for text
// ---------------------------------------------------------------------------

/// The UTF-8 encoding of a non-NUL scalar has no zero byte.
proof fn lemma_encode_scalar_no_nul(s: u32)
    requires
        s != 0,
    ensures
        forall|i: int|
            0 <= i < vstd::utf8::encode_scalar(s).len() ==> vstd::utf8::encode_scalar(s)[i] != 0,
{
    if vstd::utf8::has_width_1_encoding(s) {
        assert((s & 0x7F) as u8 != 0) by (bit_vector)
            requires
                s != 0 && s <= 0x7F,
        ;
    } else if vstd::utf8::has_width_2_encoding(s) {
        assert((0xC0 | ((s >> 6) & 0x1F) as u8) != 0) by (bit_vector);
        assert((0x80 | (s & 0x3F) as u8) != 0) by (bit_vector);
    } else if vstd::utf8::has_width_3_encoding(s) {
        assert((0xE0 | ((s >> 12) & 0x0F) as u8) != 0) by (bit_vector);
        assert((0x80 | ((s >> 6) & 0x3F) as u8) != 0) by (bit_vector);
        assert((0x80 | (s & 0x3F) as u8) != 0) by (bit_vector);
    } else {
        assert((0xF0 | ((s >> 18) & 0x7) as u8) != 0) by (bit_vector);
        assert((0x80 | ((s >> 12) & 0x3F) as u8) != 0) by (bit_vector);
        assert((0x80 | ((s >> 6) & 0x3F) as u8) != 0) by (bit_vector);
        assert((0x80 | (s & 0x3F) as u8) != 0) by (bit_vector);
    }
}

/// The UTF-8 encoding of text without NUL characters has no zero byte.
proof fn lemma_encode_utf8_no_nul(chars: Seq<char>)
    requires
        forall|i: int| 0 <= i < chars.len() ==> chars[i] as u32 != 0,
    ensures
        forall|i: int|
            0 <= i < vstd::utf8::encode_utf8(chars).len() ==> vstd::utf8::encode_utf8(chars)[i]
                != 0,
    decreases chars.len(),
{
    if chars.len() > 0 {
        let c = chars[0];
        lemma_encode_scalar_no_nul(c as u32);
        assert(forall|i: int|
            0 <= i < chars.drop_first().len() ==> chars.drop_first()[i] as u32 != 0);
        lemma_encode_utf8_no_nul(chars.drop_first());
        let head = vstd::utf8::encode_scalar(c as u32);
        let rest = vstd::utf8::encode_utf8(chars.drop_first());
        assert(vstd::utf8::encode_utf8(chars) == head + rest);
        assert forall|i: int| 0 <= i < (head + rest).len() implies (head + rest)[i] != 0 by {
            if i < head.len() {
                assert((head + rest)[i] == head[i]);
            } else {
                assert((head + rest)[i] == rest[i - head.len()]);
            }
        }
    }
}

/// Round trip for text strings that hold no NUL character; a string with a
/// NUL is rejected by its own decoder, so it is left out.
pub proof fn lemma_round_trip_string(s: Seq<char>)
    requires
        forall|i: int| 0 <= i < s.len() ==> s[i] as u32 != 0,
        vstd::utf8::encode_utf8(s).len() + 9 <= usize::MAX,
    ensures
        <String as Decodable>::rlp_decoded(enc_data(vstd::utf8::encode_utf8(s))) == Ok::<
            Seq<char>,
            DecoderError,
        >(s),
{
    let p = vstd::utf8::encode_utf8(s);
    lemma_value_payload_of_enc_data(p);
    lemma_encode_utf8_no_nul(s);
    vstd::utf8::encode_utf8_valid_utf8(s);
    vstd::utf8::encode_utf8_decode_utf8(s);
    assert(!(exists|j: int| 0 <= j < p.len() && p[j] == 0));
}

/// Round trip for an optional one-byte integer, the element law discharged.
pub proof fn lemma_round_trip_option_u8(v: &Option<u8>)
    ensures
        <Option<u8> as Decodable>::rlp_decoded(v.rlp_encoding()) == Ok::<
            Option<u8>,
            DecoderError,
        >(*v),
{
    lemma_word_bytes();
    match v {
        Option::None => {},
        Option::Some(x) => {
            if *x == 0 {
                lemma_enc_data_delimited(Seq::<u8>::empty());
            } else {
                lemma_enc_data_delimited(seq![*x]);
            }
            lemma_round_trip_u8(*x);
        },
    }
    lemma_round_trip_option(v);
}

} // verus!
