//! The wide value types the codec serves: a 256-bit unsigned integer held as
//! its big-endian bytes, and fixed-size byte arrays for the common hash
//! widths.

use vstd::prelude::*;

use crate::error::DecoderError;
use crate::grammar::{
    be_bytes, be_val, enc_data, value_payload,
};
use crate::rlpin::Rlp;
use crate::stream::RlpStream;
use crate::traits::{Decodable, Encodable};

verus! {

// ---------------------------------------------------------------------------
// Big-endian helpers for stripping and padding
// ---------------------------------------------------------------------------

/// A big-endian string with no leading zero byte is the minimal form of its
/// own value.
pub proof fn lemma_be_bytes_fixpoint(s: Seq<u8>)
    requires
        s.len() == 0 || s[0] != 0,
    ensures
        be_bytes(be_val(s)) == s,
    decreases s.len(),
{
    if s.len() > 0 {
        let head = s.drop_last();
        lemma_be_bytes_fixpoint(head);
        assert(head.len() == 0 || head[0] != 0);
        let n = be_val(s);
        assert(n == 256 * be_val(head) + s.last() as nat);
        if n == 0 {
            assert(be_val(head) == 0);
            assert(s.last() == 0);
            if s.len() == 1 {
                assert(s[0] == s.last());
            } else {
                assert(head[0] == s[0]);
                crate::grammar::lemma_be_bytes_first_nonzero(be_val(head));
                assert(be_bytes(be_val(head)) == head);
                assert(head.len() >= 1 && head[0] != 0 ==> be_val(head) > 0) by {
                    if be_val(head) == 0 {
                        assert(be_bytes(0nat) =~= Seq::<u8>::empty());
                    }
                };
            }
        } else {
            assert(n / 256 == be_val(head) && n % 256 == s.last() as nat) by (nonlinear_arith)
                requires
                    n == 256 * be_val(head) + s.last() as nat,
                    s.last() < 256,
            ;
            assert(be_bytes(n) == be_bytes(be_val(head)).push((n % 256) as u8));
            assert(be_bytes(n) =~= s) by {
                assert(head.push(s.last()) =~= s);
            };
        }
    }
}

/// Leading zero bytes do not change the value.
pub proof fn lemma_be_val_pad(z: Seq<u8>, s: Seq<u8>)
    requires
        forall|i: int| 0 <= i < z.len() ==> z[i] == 0,
    ensures
        be_val(z + s) == be_val(s),
    decreases s.len(),
{
    if s.len() == 0 {
        assert(z + s =~= z);
        lemma_be_val_zeros(z);
    } else {
        assert((z + s).drop_last() =~= z + s.drop_last());
        assert((z + s).last() == s.last());
        lemma_be_val_pad(z, s.drop_last());
    }
}

/// A string of zero bytes has value zero.
pub proof fn lemma_be_val_zeros(z: Seq<u8>)
    requires
        forall|i: int| 0 <= i < z.len() ==> z[i] == 0,
    ensures
        be_val(z) == 0,
    decreases z.len(),
{
    if z.len() > 0 {
        lemma_be_val_zeros(z.drop_last());
    }
}

/// Every byte string is its leading zeros before the minimal form of its own
/// value.
pub proof fn lemma_be_pad_back(s: Seq<u8>)
    ensures
        be_bytes(be_val(s)).len() <= s.len(),
        Seq::new((s.len() - be_bytes(be_val(s)).len()) as nat, |i: int| 0u8) + be_bytes(be_val(s))
            == s,
    decreases s.len(),
{
    crate::grammar::lemma_be_val_bound(s);
    crate::grammar::lemma_be_len_le(be_val(s), s.len());
    crate::grammar::lemma_be_bytes_len(be_val(s));
    let p = be_bytes(be_val(s));
    if s.len() == 0 {
        assert(be_val(s) == 0);
        assert(p =~= Seq::<u8>::empty());
        assert(Seq::new(0nat, |i: int| 0u8) + p =~= s);
    } else if s[0] != 0 {
        lemma_be_bytes_fixpoint(s);
        assert(Seq::new(0nat, |i: int| 0u8) + p =~= s);
    } else {
        let t = s.drop_first();
        assert(seq![0u8] + t =~= s);
        lemma_be_val_pad(seq![0u8], t);
        lemma_be_pad_back(t);
        let l = be_bytes(be_val(t)).len();
        assert(Seq::new((s.len() - l) as nat, |i: int| 0u8) + p =~= seq![0u8] + (Seq::new(
            (t.len() - l) as nat,
            |i: int| 0u8,
        ) + be_bytes(be_val(t))));
    }
}

/// Strips the leading zero bytes: what remains is the minimal big-endian form
/// of the value.
fn strip_leading_zeros<'a>(b: &'a [u8]) -> (r: &'a [u8])
    ensures
        r@ == be_bytes(be_val(b@)),
{
    let l = b.len();
    let mut k: usize = 0;
    while k < l && *vstd::slice::slice_index_get(b, k) == 0
        invariant
            k <= l,
            l == b@.len(),
            forall|i: int| 0 <= i < k ==> b@[i] == 0,
        decreases l - k,
    {
        k += 1;
    }
    let r = vstd::slice::slice_subrange(b, k, l);
    proof {
        assert(b@.subrange(0, k as int) + r@ =~= b@);
        lemma_be_val_pad(b@.subrange(0, k as int), r@);
        lemma_be_bytes_fixpoint(r@);
    }
    r
}

// ---------------------------------------------------------------------------
// U256
// ---------------------------------------------------------------------------

/// A 256-bit unsigned integer, held as its 32 big-endian bytes.
#[derive(Clone, Debug, PartialEq, Eq)]
pub struct U256 {
    bytes: Vec<u8>,
}

impl View for U256 {
    type V = Seq<u8>;

    closed spec fn view(&self) -> Seq<u8> {
        self.bytes@
    }
}

impl DeepView for U256 {
    type V = Seq<u8>;

    open spec fn deep_view(&self) -> Seq<u8> {
        self.view()
    }
}

impl U256 {
    /// The value is well formed when it holds exactly 32 bytes.
    pub open spec fn wf(&self) -> bool {
        self@.len() == 32
    }

    /// The numeric value, big-endian.
    pub open spec fn value(&self) -> nat {
        be_val(self@)
    }

    /// Wraps 32 big-endian bytes.
    pub fn from_slice(b: &[u8]) -> (r: U256)
        requires
            b@.len() == 32,
        ensures
            r@ == b@,
            r.wf(),
    {
        U256 { bytes: vstd::slice::slice_to_vec(b) }
    }

    /// The 32 big-endian bytes.
    pub fn as_bytes(&self) -> (r: &[u8])
        ensures
            r@ == self@,
    {
        self.bytes.as_slice()
    }
}

impl Encodable for U256 {
    open spec fn rlp_encoding(&self) -> Seq<u8> {
        enc_data(be_bytes(self.value()))
    }

    fn rlp_append(&self, s: &mut RlpStream) {
        let minimal = strip_leading_zeros(self.bytes.as_slice());
        s.append_value(minimal);
    }
}

/// What decoding a 256-bit integer payload yields: at most 32 bytes, no
/// leading zero, left-padded to the fixed width.
pub open spec fn decoded_u256_payload(d: Seq<u8>) -> Result<Seq<u8>, DecoderError> {
    if d.len() > 0 && d[0] == 0 {
        Err(DecoderError::RlpInvalidIndirection)
    } else if d.len() <= 32 {
        Ok(Seq::new((32 - d.len()) as nat, |i: int| 0u8) + d)
    } else {
        Err(DecoderError::RlpIsTooBig)
    }
}

impl Decodable for U256 {
    open spec fn rlp_decoded(b: Seq<u8>) -> Result<Seq<u8>, DecoderError> {
        match value_payload(b) {
            Err(e) => Err(e),
            Ok(d) => decoded_u256_payload(d),
        }
    }

    fn decode(rlp: &Rlp) -> (r: Result<U256, DecoderError>) {
        let r = rlp.decoder().decode_value(read_u256_payload);
        proof {
            match value_payload(rlp@) {
                Ok(d) => {
                    if r is Ok {
                        assert(r->Ok_0.deep_view() == r->Ok_0@);
                    }
                },
                Err(_) => {},
            }
        }
        r
    }
}

/// Reads a 256-bit integer payload, left-padding to 32 bytes.
fn read_u256_payload(d: &[u8]) -> (res: Result<U256, DecoderError>)
    ensures
        match res {
            Ok(v) => decoded_u256_payload(d@) == Ok::<Seq<u8>, DecoderError>(v@) && v.wf(),
            Err(e) => decoded_u256_payload(d@) == Err::<Seq<u8>, DecoderError>(e),
        },
{
    let l = d.len();
    if l > 0 && *vstd::slice::slice_index_get(d, 0) == 0 {
        return Err(DecoderError::RlpInvalidIndirection);
    }
    if l > 32 {
        return Err(DecoderError::RlpIsTooBig);
    }
    let mut bytes: Vec<u8> = Vec::new();
    let pad = 32 - l;
    let mut i: usize = 0;
    while i < pad
        invariant
            i <= pad,
            bytes@.len() == i,
            forall|j: int| 0 <= j < i ==> bytes@[j] == 0,
        decreases pad - i,
    {
        bytes.push(0);
        i += 1;
    }
    bytes.extend_from_slice(d);
    proof {
        assert(bytes@ =~= Seq::new(pad as nat, |i: int| 0u8) + d@);
    }
    Ok(U256 { bytes })
}

// ---------------------------------------------------------------------------
// Fixed-size byte arrays
// ---------------------------------------------------------------------------

/// A fixed-size byte string of `N` bytes, as hashes and addresses are carried.
#[derive(Clone, Debug, PartialEq, Eq)]
pub struct FixedBytes<const N: usize> {
    bytes: Vec<u8>,
}

impl<const N: usize> View for FixedBytes<N> {
    type V = Seq<u8>;

    closed spec fn view(&self) -> Seq<u8> {
        self.bytes@
    }
}

impl<const N: usize> DeepView for FixedBytes<N> {
    type V = Seq<u8>;

    open spec fn deep_view(&self) -> Seq<u8> {
        self.view()
    }
}

impl<const N: usize> FixedBytes<N> {
    /// The value is well formed when it holds exactly `N` bytes.
    pub open spec fn wf(&self) -> bool {
        self@.len() == N
    }

    /// Wraps `N` bytes.
    pub fn from_slice(b: &[u8]) -> (r: FixedBytes<N>)
        requires
            b@.len() == N,
        ensures
            r@ == b@,
            r.wf(),
    {
        FixedBytes { bytes: vstd::slice::slice_to_vec(b) }
    }

    /// The bytes, in order.
    pub fn as_bytes(&self) -> (r: &[u8])
        ensures
            r@ == self@,
    {
        self.bytes.as_slice()
    }
}

impl<const N: usize> Encodable for FixedBytes<N> {
    open spec fn rlp_encoding(&self) -> Seq<u8> {
        enc_data(self@)
    }

    fn rlp_append(&self, s: &mut RlpStream) {
        s.append_value(self.bytes.as_slice());
    }
}

/// What decoding a fixed-size payload yields: exactly `N` bytes, verbatim.
pub open spec fn decoded_fixed_payload(d: Seq<u8>, n: nat) -> Result<Seq<u8>, DecoderError> {
    if d.len() < n {
        Err(DecoderError::RlpIsTooShort { expected: n as usize, got: d.len() as usize })
    } else if d.len() > n {
        Err(DecoderError::RlpIsTooBig)
    } else {
        Ok(d)
    }
}

impl<const N: usize> Decodable for FixedBytes<N> {
    open spec fn rlp_decoded(b: Seq<u8>) -> Result<Seq<u8>, DecoderError> {
        match value_payload(b) {
            Err(e) => Err(e),
            Ok(d) => decoded_fixed_payload(d, N as nat),
        }
    }

    fn decode(rlp: &Rlp) -> (r: Result<FixedBytes<N>, DecoderError>) {
        let r = rlp.decoder().decode_value(read_fixed_payload::<N>);
        proof {
            match value_payload(rlp@) {
                Ok(d) => {
                    if r is Ok {
                        assert(r->Ok_0.deep_view() == r->Ok_0@);
                    }
                },
                Err(_) => {},
            }
        }
        r
    }
}

/// Reads a payload of exactly `N` bytes.
fn read_fixed_payload<const N: usize>(d: &[u8]) -> (res: Result<FixedBytes<N>, DecoderError>)
    ensures
        match res {
            Ok(v) => decoded_fixed_payload(d@, N as nat) == Ok::<Seq<u8>, DecoderError>(v@)
                && v.wf(),
            Err(e) => decoded_fixed_payload(d@, N as nat) == Err::<Seq<u8>, DecoderError>(e),
        },
{
    let l = d.len();
    if l < N {
        Err(DecoderError::RlpIsTooShort { expected: N, got: l })
    } else if l > N {
        Err(DecoderError::RlpIsTooBig)
    } else {
        Ok(FixedBytes { bytes: vstd::slice::slice_to_vec(d) })
    }
}

/// A 128-bit hash value.
pub type H128 = FixedBytes<16>;

/// A 160-bit address hash.
pub type H160 = FixedBytes<20>;

/// A 256-bit hash value.
pub type H256 = FixedBytes<32>;

/// A 512-bit hash value.
pub type H512 = FixedBytes<64>;

/// A 520-bit value, as an uncompressed signature is carried.
pub type H520 = FixedBytes<65>;

} // verus!
