//! The provided codecs for the standard primitive set: booleans, unsigned
//! integers, byte strings, text strings, optional values and homogeneous
//! lists.

use vstd::prelude::*;

use crate::error::DecoderError;
use crate::grammar::{
    be_bytes, be_val, enc_data, lemma_be_bytes_first_nonzero, lemma_be_bytes_len,
    lemma_be_bytes_val, lemma_be_len_le, lemma_be_val_push, lemma_pow256_le, pow256, value_payload,
};
use crate::rlpin::{at_spec, item_count_spec, Rlp};
use crate::stream::{be_bytes_vec, model_push, RlpStream, StreamModel};
use crate::traits::{enc_list_of, list_decoded, Decodable, Encodable};

verus! {

// ---------------------------------------------------------------------------
// Shared helpers
// ---------------------------------------------------------------------------

/// The value a big-endian payload of at most eight bytes carries.
fn read_be_u64(d: &[u8]) -> (r: u64)
    requires
        d@.len() <= 8,
    ensures
        r as nat == be_val(d@),
{
    let l = d.len();
    let mut res: u64 = 0;
    let mut i: usize = 0;
    while i < l
        invariant
            i <= l,
            l == d@.len() <= 8,
            res as nat == be_val(d@.subrange(0, i as int)),
            (res as nat) < pow256(i as nat),
        decreases l - i,
    {
        proof {
            lemma_be_val_push(d@.subrange(0, i as int), d@[i as int]);
            assert(d@.subrange(0, i as int).push(d@[i as int]) =~= d@.subrange(0, i as int + 1));
            assert(pow256((i + 1) as nat) == 256 * pow256(i as nat));
            lemma_pow256_le((i + 1) as nat, 8);
            assert(pow256(8) == 0x1_0000_0000_0000_0000) by {
                reveal_with_fuel(pow256, 9);
            };
        }
        res = res * 256 + (*vstd::slice::slice_index_get(d, i) as u64);
        i += 1;
    }
    proof {
        assert(d@.subrange(0, l as int) =~= d@);
    }
    res
}

/// What decoding an integer payload of at most `width` bytes yields: empty
/// means zero, a leading zero byte is non-canonical, and anything wider than
/// the target is too big.
pub open spec fn decoded_uint_payload(d: Seq<u8>, width: nat) -> Result<u64, DecoderError> {
    if d.len() == 0 {
        Ok(0u64)
    } else if d.len() == 1 {
        if d[0] != 0 {
            Ok(d[0] as u64)
        } else {
            Err(DecoderError::RlpInvalidIndirection)
        }
    } else if d.len() <= width {
        if d[0] == 0 {
            Err(DecoderError::RlpInvalidIndirection)
        } else {
            Ok((be_val(d) as u64))
        }
    } else {
        Err(DecoderError::RlpIsTooBig)
    }
}

// ---------------------------------------------------------------------------
// bool
// ---------------------------------------------------------------------------

impl Encodable for bool {
    open spec fn rlp_encoding(&self) -> Seq<u8> {
        enc_data(if *self {
            seq![1u8]
        } else {
            seq![0u8]
        })
    }

    fn rlp_append(&self, s: &mut RlpStream) {
        let mut v: Vec<u8> = Vec::new();
        if *self {
            v.push(1);
        } else {
            v.push(0);
        }
        proof {
            if *self {
                assert(v@ =~= seq![1u8]);
            } else {
                assert(v@ =~= seq![0u8]);
            }
        }
        s.append_value(v.as_slice());
    }
}

/// What decoding a boolean payload yields.
pub open spec fn decoded_bool_payload(d: Seq<u8>) -> Result<bool, DecoderError> {
    if d.len() == 0 {
        Ok(false)
    } else if d.len() == 1 {
        Ok(d[0] != 0)
    } else {
        Err(DecoderError::RlpIsTooBig)
    }
}

impl Decodable for bool {
    open spec fn rlp_decoded(b: Seq<u8>) -> Result<bool, DecoderError> {
        match value_payload(b) {
            Err(e) => Err(e),
            Ok(d) => decoded_bool_payload(d),
        }
    }

    fn decode(rlp: &Rlp) -> (r: Result<bool, DecoderError>) {
        rlp.decoder().decode_value(read_bool_payload)
    }
}

/// Reads a boolean payload.
fn read_bool_payload(d: &[u8]) -> (res: Result<bool, DecoderError>)
    ensures
        res == decoded_bool_payload(d@),
{
    if d.len() == 0 {
        Ok(false)
    } else if d.len() == 1 {
        Ok(*vstd::slice::slice_index_get(d, 0) != 0)
    } else {
        Err(DecoderError::RlpIsTooBig)
    }
}

// ---------------------------------------------------------------------------
// Unsigned integers
// ---------------------------------------------------------------------------

impl Encodable for u8 {
    open spec fn rlp_encoding(&self) -> Seq<u8> {
        enc_data(
            if *self == 0 {
                Seq::empty()
            } else {
                seq![*self]
            },
        )
    }

    fn rlp_append(&self, s: &mut RlpStream) {
        let mut v: Vec<u8> = Vec::new();
        if *self != 0 {
            v.push(*self);
        }
        proof {
            if *self != 0 {
                assert(v@ =~= seq![*self]);
            } else {
                assert(v@ =~= Seq::<u8>::empty());
            }
        }
        s.append_value(v.as_slice());
    }
}

/// What decoding a one-byte-wide integer payload yields.
pub open spec fn decoded_u8_payload(d: Seq<u8>) -> Result<u8, DecoderError> {
    if d.len() == 0 {
        Ok(0u8)
    } else if d.len() == 1 {
        if d[0] != 0 {
            Ok(d[0])
        } else {
            Err(DecoderError::RlpInvalidIndirection)
        }
    } else {
        Err(DecoderError::RlpIsTooBig)
    }
}

impl Decodable for u8 {
    open spec fn rlp_decoded(b: Seq<u8>) -> Result<u8, DecoderError> {
        match value_payload(b) {
            Err(e) => Err(e),
            Ok(d) => decoded_u8_payload(d),
        }
    }

    fn decode(rlp: &Rlp) -> (r: Result<u8, DecoderError>) {
        rlp.decoder().decode_value(read_u8_payload)
    }
}

/// Reads a one-byte-wide integer payload.
fn read_u8_payload(d: &[u8]) -> (res: Result<u8, DecoderError>)
    ensures
        res == decoded_u8_payload(d@),
{
    if d.len() == 0 {
        Ok(0)
    } else if d.len() == 1 {
        let b0 = *vstd::slice::slice_index_get(d, 0);
        if b0 != 0 {
            Ok(b0)
        } else {
            Err(DecoderError::RlpInvalidIndirection)
        }
    } else {
        Err(DecoderError::RlpIsTooBig)
    }
}

/// Appends the minimal big-endian form of `n`, leading zero bytes stripped.
fn append_uint(s: &mut RlpStream, n: u64)
    requires
        old(s).wf(),
    ensures
        final(s).wf(),
        final(s)@ == model_push(old(s)@, enc_data(be_bytes(n as nat))),
{
    let v = be_bytes_vec(n);
    s.append_value(v.as_slice());
}

impl Encodable for u16 {
    open spec fn rlp_encoding(&self) -> Seq<u8> {
        enc_data(be_bytes(*self as nat))
    }

    fn rlp_append(&self, s: &mut RlpStream) {
        append_uint(s, *self as u64);
    }
}

impl Encodable for u32 {
    open spec fn rlp_encoding(&self) -> Seq<u8> {
        enc_data(be_bytes(*self as nat))
    }

    fn rlp_append(&self, s: &mut RlpStream) {
        append_uint(s, *self as u64);
    }
}

impl Encodable for u64 {
    open spec fn rlp_encoding(&self) -> Seq<u8> {
        enc_data(be_bytes(*self as nat))
    }

    fn rlp_append(&self, s: &mut RlpStream) {
        append_uint(s, *self);
    }
}

impl Encodable for usize {
    open spec fn rlp_encoding(&self) -> Seq<u8> {
        enc_data(be_bytes(*self as nat))
    }

    fn rlp_append(&self, s: &mut RlpStream) {
        proof {
            assert((*self as u64) as nat == *self as nat);
        }
        append_uint(s, *self as u64);
    }
}

impl Decodable for u16 {
    open spec fn rlp_decoded(b: Seq<u8>) -> Result<u16, DecoderError> {
        match value_payload(b) {
            Err(e) => Err(e),
            Ok(d) => match decoded_uint_payload(d, 2) {
                Err(e) => Err(e),
                Ok(v) => Ok((v as u16)),
            },
        }
    }

    fn decode(rlp: &Rlp) -> (r: Result<u16, DecoderError>) {
        rlp.decoder().decode_value(read_u16_payload)
    }
}

/// Reads a two-byte-wide integer payload.
fn read_u16_payload(d: &[u8]) -> (res: Result<u16, DecoderError>)
    ensures
        res == (match decoded_uint_payload(d@, 2) {
            Err(e) => Err::<u16, DecoderError>(e),
            Ok(v) => Ok::<u16, DecoderError>((v as u16)),
        }),
{
    proof {
        lemma_uint_payload_bound(d@, 2);
    }
    match read_uint_payload(d, 2) {
        Ok(v) => Ok(v as u16),
        Err(e) => Err(e),
    }
}

impl Decodable for u32 {
    open spec fn rlp_decoded(b: Seq<u8>) -> Result<u32, DecoderError> {
        match value_payload(b) {
            Err(e) => Err(e),
            Ok(d) => match decoded_uint_payload(d, 4) {
                Err(e) => Err(e),
                Ok(v) => Ok((v as u32)),
            },
        }
    }

    fn decode(rlp: &Rlp) -> (r: Result<u32, DecoderError>) {
        rlp.decoder().decode_value(read_u32_payload)
    }
}

/// Reads a four-byte-wide integer payload.
fn read_u32_payload(d: &[u8]) -> (res: Result<u32, DecoderError>)
    ensures
        res == (match decoded_uint_payload(d@, 4) {
            Err(e) => Err::<u32, DecoderError>(e),
            Ok(v) => Ok::<u32, DecoderError>((v as u32)),
        }),
{
    proof {
        lemma_uint_payload_bound(d@, 4);
    }
    match read_uint_payload(d, 4) {
        Ok(v) => Ok(v as u32),
        Err(e) => Err(e),
    }
}

impl Decodable for u64 {
    open spec fn rlp_decoded(b: Seq<u8>) -> Result<u64, DecoderError> {
        match value_payload(b) {
            Err(e) => Err(e),
            Ok(d) => decoded_uint_payload(d, 8),
        }
    }

    fn decode(rlp: &Rlp) -> (r: Result<u64, DecoderError>) {
        rlp.decoder().decode_value(read_u64_payload)
    }
}

/// Reads an eight-byte-wide integer payload.
fn read_u64_payload(d: &[u8]) -> (res: Result<u64, DecoderError>)
    ensures
        res == decoded_uint_payload(d@, 8),
{
    read_uint_payload(d, 8)
}

impl Decodable for usize {
    open spec fn rlp_decoded(b: Seq<u8>) -> Result<usize, DecoderError> {
        match value_payload(b) {
            Err(e) => Err(e),
            Ok(d) => match decoded_uint_payload(d, 8) {
                Err(e) => Err(e),
                Ok(v) => Ok((v as usize)),
            },
        }
    }

    fn decode(rlp: &Rlp) -> (r: Result<usize, DecoderError>) {
        rlp.decoder().decode_value(read_usize_payload)
    }
}

/// Reads an integer payload, narrowed to the platform word as the encoding of
/// a machine-sized integer is the encoding of its 64-bit value.
fn read_usize_payload(d: &[u8]) -> (res: Result<usize, DecoderError>)
    ensures
        res == (match decoded_uint_payload(d@, 8) {
            Err(e) => Err::<usize, DecoderError>(e),
            Ok(v) => Ok::<usize, DecoderError>((v as usize)),
        }),
{
    match read_uint_payload(d, 8) {
        Ok(v) => Ok(v as usize),
        Err(e) => Err(e),
    }
}

/// A payload accepted for a `width`-byte integer carries a value below
/// `256^width`.
proof fn lemma_uint_payload_bound(d: Seq<u8>, width: nat)
    requires
        1 <= width <= 8,
    ensures
        decoded_uint_payload(d, width) matches Ok(v) ==> (v as nat) < pow256(width),
{
    assert(pow256(1) == 256) by {
        reveal_with_fuel(pow256, 2);
    };
    assert(pow256(8) == 0x1_0000_0000_0000_0000) by {
        reveal_with_fuel(pow256, 9);
    };
    lemma_pow256_le(1, width);
    if 2 <= d.len() <= width && d[0] != 0 {
        crate::grammar::lemma_be_val_bound(d);
        lemma_pow256_le(d.len(), width);
        lemma_pow256_le(width, 8);
    }
}

/// Reads an integer payload of at most `width` bytes.
fn read_uint_payload(d: &[u8], width: usize) -> (r: Result<u64, DecoderError>)
    requires
        1 <= width <= 8,
    ensures
        r == decoded_uint_payload(d@, width as nat),
{
    if d.len() == 0 {
        Ok(0)
    } else if d.len() == 1 {
        let b0 = *vstd::slice::slice_index_get(d, 0);
        if b0 != 0 {
            Ok(b0 as u64)
        } else {
            Err(DecoderError::RlpInvalidIndirection)
        }
    } else if d.len() <= width {
        if *vstd::slice::slice_index_get(d, 0) == 0 {
            Err(DecoderError::RlpInvalidIndirection)
        } else {
            proof {
                crate::grammar::lemma_be_val_bound(d@);
            }
            Ok(read_be_u64(d))
        }
    } else {
        Err(DecoderError::RlpIsTooBig)
    }
}

// ---------------------------------------------------------------------------
// Byte strings
// ---------------------------------------------------------------------------

impl<'a> Encodable for &'a [u8] {
    open spec fn rlp_encoding(&self) -> Seq<u8> {
        enc_data((*self)@)
    }

    fn rlp_append(&self, s: &mut RlpStream) {
        s.append_value(*self);
    }
}

impl Encodable for Vec<u8> {
    open spec fn rlp_encoding(&self) -> Seq<u8> {
        enc_data(self@)
    }

    fn rlp_append(&self, s: &mut RlpStream) {
        s.append_value(self.as_slice());
    }
}

impl Decodable for Vec<u8> {
    open spec fn rlp_decoded(b: Seq<u8>) -> Result<Seq<u8>, DecoderError> {
        value_payload(b)
    }

    fn decode(rlp: &Rlp) -> (r: Result<Vec<u8>, DecoderError>) {
        let r = rlp.decoder().decode_value(read_bytes_payload);
        proof {
            match value_payload(rlp@) {
                Ok(d) => {
                    if r is Ok {
                        assert(r->Ok_0.deep_view() =~= r->Ok_0@);
                    }
                },
                Err(_) => {},
            }
        }
        r
    }
}

/// Copies a byte payload out, verbatim.
fn read_bytes_payload(d: &[u8]) -> (res: Result<Vec<u8>, DecoderError>)
    ensures
        res matches Ok(v) && v@ == d@,
{
    Ok(vstd::slice::slice_to_vec(d))
}

// ---------------------------------------------------------------------------
// Homogeneous lists of byte strings
// ---------------------------------------------------------------------------

impl Encodable for Vec<Vec<u8>> {
    open spec fn rlp_encoding(&self) -> Seq<u8> {
        enc_list_of::<Vec<u8>>(self@)
    }

    fn rlp_append(&self, s: &mut RlpStream) {
        s.append_list(self.as_slice());
    }
}

impl Decodable for Vec<Vec<u8>> {
    open spec fn rlp_decoded(b: Seq<u8>) -> Result<Seq<Seq<u8>>, DecoderError> {
        list_decoded::<Vec<u8>>(b)
    }

    fn decode(rlp: &Rlp) -> (r: Result<Vec<Vec<u8>>, DecoderError>) {
        rlp.as_list::<Vec<u8>>()
    }
}

// ---------------------------------------------------------------------------
// Text strings
// ---------------------------------------------------------------------------

impl<'a> Encodable for &'a str {
    open spec fn rlp_encoding(&self) -> Seq<u8> {
        enc_data(vstd::utf8::encode_utf8((*self)@))
    }

    fn rlp_append(&self, s: &mut RlpStream) {
        s.append_value(self.as_bytes());
    }
}

impl Encodable for String {
    open spec fn rlp_encoding(&self) -> Seq<u8> {
        enc_data(vstd::utf8::encode_utf8(self@))
    }

    fn rlp_append(&self, s: &mut RlpStream) {
        s.append_value(self.as_str().as_bytes());
    }
}

/// What decoding a text payload yields: no NUL byte, and the bytes must be
/// valid UTF-8.
pub open spec fn decoded_string_payload(d: Seq<u8>) -> Result<Seq<char>, DecoderError> {
    if exists|j: int| 0 <= j < d.len() && d[j] == 0 {
        Err(DecoderError::RlpNullTerminatedString)
    } else if !vstd::utf8::valid_utf8(d) {
        Err(DecoderError::RlpExpectedToBeData)
    } else {
        Ok(vstd::utf8::decode_utf8(d))
    }
}

impl Decodable for String {
    open spec fn rlp_decoded(b: Seq<u8>) -> Result<Seq<char>, DecoderError> {
        match value_payload(b) {
            Err(e) => Err(e),
            Ok(d) => decoded_string_payload(d),
        }
    }

    fn decode(rlp: &Rlp) -> (r: Result<String, DecoderError>) {
        let r = rlp.decoder().decode_value(read_string_payload);
        proof {
            match value_payload(rlp@) {
                Ok(d) => {
                    if r is Ok {
                        assert(r->Ok_0.deep_view() == r->Ok_0@);
                    }
                },
                Err(_) => {},
            }
        }
        r
    }
}

/// Reads a text payload: rejects NUL bytes and invalid UTF-8.
fn read_string_payload(d: &[u8]) -> (res: Result<String, DecoderError>)
    ensures
        match res {
            Ok(s) => decoded_string_payload(d@) == Ok::<Seq<char>, DecoderError>(s@),
            Err(e) => decoded_string_payload(d@) == Err::<Seq<char>, DecoderError>(e),
        },
{
    let l = d.len();
    let mut i: usize = 0;
    while i < l
        invariant
            i <= l,
            l == d@.len(),
            forall|j: int| 0 <= j < i ==> d@[j] != 0,
        decreases l - i,
    {
        if *vstd::slice::slice_index_get(d, i) == 0 {
            return Err(DecoderError::RlpNullTerminatedString);
        }
        i += 1;
    }
    match bytes_to_string(vstd::slice::slice_to_vec(d)) {
        Some(s) => Ok(s),
        None => Err(DecoderError::RlpExpectedToBeData),
    }
}

/// Relies on std's `String::from_utf8`: it returns a string exactly when the
/// bytes are valid UTF-8, and the string's characters are their decoding.
#[verifier::external_body]
fn bytes_to_string(v: Vec<u8>) -> (r: Option<String>)
    ensures
        r is Some <==> vstd::utf8::valid_utf8(v@),
        r matches Some(s) ==> s@ == vstd::utf8::decode_utf8(v@),
{
    String::from_utf8(v).ok()
}

// ---------------------------------------------------------------------------
// Optional values
// ---------------------------------------------------------------------------

impl<T: Encodable> Encodable for Option<T> {
    open spec fn rlp_encoding(&self) -> Seq<u8> {
        match self {
            Option::None => crate::grammar::enc_list_payload(Seq::empty()),
            Option::Some(v) => crate::grammar::enc_list_payload(v.rlp_encoding()),
        }
    }

    fn rlp_append(&self, s: &mut RlpStream) {
        match self {
            Option::None => {
                s.begin_list(0);
            },
            Option::Some(value) => {
                s.begin_list(1);
                let ghost mid = s@;
                s.append(value);
                proof {
                    assert(mid.open.last() == (crate::stream::OpenFrame {
                        declared: 1nat,
                        children: Seq::empty(),
                    }));
                    assert(mid.open.drop_last() =~= old(s)@.open);
                    let ch = Seq::<Seq<u8>>::empty().push(value.rlp_encoding());
                    ch.lemma_flatten_one_element();
                    assert(ch.first() == value.rlp_encoding());
                    assert((StreamModel { done: mid.done, open: mid.open.drop_last() })
                        =~= old(s)@);
                }
            },
        }
    }
}

impl<T: Decodable> Decodable for Option<T> {
    open spec fn rlp_decoded(b: Seq<u8>) -> Result<Option<<T as DeepView>::V>, DecoderError> {
        match item_count_spec(b) {
            Err(e) => Err(e),
            Ok(n) => if n == 1 {
                match at_spec(b, 0) {
                    Err(e) => Err(e),
                    Ok(sub) => match T::rlp_decoded(sub) {
                        Err(e) => Err(e),
                        Ok(v) => Ok(Some(v)),
                    },
                }
            } else if n == 0 {
                Ok(None)
            } else {
                Err(DecoderError::RlpIncorrectListLen)
            },
        }
    }

    fn decode(rlp: &Rlp) -> (r: Result<Option<T>, DecoderError>) {
        let items = match rlp.item_count() {
            Ok(n) => n,
            Err(e) => {
                return Err(e);
            },
        };
        if items == 1 {
            match rlp.val_at::<T>(0) {
                Ok(v) => Ok(Some(v)),
                Err(e) => Err(e),
            }
        } else if items == 0 {
            Ok(None)
        } else {
            Err(DecoderError::RlpIncorrectListLen)
        }
    }
}

} // verus!
