//! The header grammar: the pure functions that classify a prefix byte and
//! compute the payload layout, shared by the encoder and the decoder, together
//! with the mathematical model of the encoding itself.

use vstd::prelude::*;

use crate::error::DecoderError;

verus! {

// ---------------------------------------------------------------------------
// Big-endian integers
// ---------------------------------------------------------------------------

/// 256 raised to `k`; bounds the value of a `k`-byte big-endian integer.
pub open spec fn pow256(k: nat) -> nat
    decreases k,
{
    if k == 0 {
        1
    } else {
        256 * pow256((k - 1) as nat)
    }
}

/// The value of a big-endian byte string.
pub open spec fn be_val(b: Seq<u8>) -> nat
    decreases b.len(),
{
    if b.len() == 0 {
        0
    } else {
        256 * be_val(b.drop_last()) + b.last() as nat
    }
}

/// The number of bytes in the minimal big-endian form of `n`.
pub open spec fn be_len(n: nat) -> nat
    decreases n,
{
    if n == 0 {
        0
    } else {
        1 + be_len(n / 256)
    }
}

/// The minimal big-endian form of `n`: no leading zero byte.
pub open spec fn be_bytes(n: nat) -> Seq<u8>
    decreases n,
{
    if n == 0 {
        Seq::empty()
    } else {
        be_bytes(n / 256).push((n % 256) as u8)
    }
}

pub proof fn lemma_be_bytes_len(n: nat)
    ensures
        be_bytes(n).len() == be_len(n),
    decreases n,
{
    if n > 0 {
        lemma_be_bytes_len(n / 256);
    }
}

/// Appending a low byte multiplies the value by 256 and adds the byte.
pub proof fn lemma_be_val_push(b: Seq<u8>, x: u8)
    ensures
        be_val(b.push(x)) == 256 * be_val(b) + x as nat,
{
    assert(b.push(x).drop_last() =~= b);
    assert(b.push(x).last() == x);
}

pub proof fn lemma_be_bytes_val(n: nat)
    ensures
        be_val(be_bytes(n)) == n,
    decreases n,
{
    if n > 0 {
        lemma_be_bytes_val(n / 256);
        lemma_be_val_push(be_bytes(n / 256), (n % 256) as u8);
    }
}

/// The minimal big-endian form of a positive integer starts with a non-zero byte.
pub proof fn lemma_be_bytes_first_nonzero(n: nat)
    requires
        n > 0,
    ensures
        be_bytes(n).len() >= 1,
        be_bytes(n)[0] != 0,
    decreases n,
{
    if n >= 256 {
        lemma_be_bytes_first_nonzero(n / 256);
        assert(be_bytes(n)[0] == be_bytes(n / 256)[0]);
    } else {
        assert(be_bytes(0) =~= Seq::<u8>::empty());
        assert(be_bytes(n) =~= Seq::<u8>::empty().push((n % 256) as u8));
        assert(n % 256 == n);
    }
}

/// The platform word width in bytes; what "up to platform-word bytes" means.
pub open spec fn word_bytes() -> nat {
    vstd::layout::size_of::<usize>()
}

pub proof fn lemma_pow256_is_pow(k: nat)
    ensures
        pow256(k) == vstd::arithmetic::power::pow(256, k),
    decreases k,
{
    reveal(vstd::arithmetic::power::pow);
    if k > 0 {
        lemma_pow256_is_pow((k - 1) as nat);
    }
}

/// A platform word holds exactly the values below `256^word_bytes()`.
pub proof fn lemma_word_bytes()
    ensures
        pow256(word_bytes()) == usize::MAX as nat + 1,
        word_bytes() == 4 || word_bytes() == 8,
        word_bytes() <= 8,
        pow256(8) == 0x1_0000_0000_0000_0000,
        pow256(4) == 0x1_0000_0000,
{
    vstd::layout::unsigned_int_max_values();
    lemma_pow256_is_pow(word_bytes());
    assert(pow256(8) == 0x1_0000_0000_0000_0000) by {
        reveal_with_fuel(pow256, 9);
    };
    assert(pow256(4) == 0x1_0000_0000) by {
        reveal_with_fuel(pow256, 5);
    };
}

pub proof fn lemma_be_len_le(n: nat, k: nat)
    requires
        n < pow256(k),
    ensures
        be_len(n) <= k,
    decreases k,
{
    if n > 0 {
        assert(k > 0);
        assert(n / 256 < pow256((k - 1) as nat)) by {
            assert(pow256(k) == 256 * pow256((k - 1) as nat));
        };
        lemma_be_len_le(n / 256, (k - 1) as nat);
    }
}

pub proof fn lemma_be_val_bound(b: Seq<u8>)
    ensures
        be_val(b) < pow256(b.len()),
    decreases b.len(),
{
    if b.len() > 0 {
        lemma_be_val_bound(b.drop_last());
        assert(pow256(b.len()) == 256 * pow256((b.len() - 1) as nat));
    }
}

pub proof fn lemma_pow256_le(j: nat, k: nat)
    requires
        j <= k,
    ensures
        pow256(j) <= pow256(k),
    decreases k,
{
    if j < k {
        lemma_pow256_le(j, (k - 1) as nat);
        assert(pow256(k) == 256 * pow256((k - 1) as nat));
    }
}

// ---------------------------------------------------------------------------
// Payload layout
// ---------------------------------------------------------------------------

/// The layout of one item: how many bytes its header takes and how many its
/// payload declares. `total = header_len + value_len`.
#[derive(Clone, Copy, Debug, PartialEq, Eq, Structural)]
pub struct PayloadInfo {
    /// Header length in bytes.
    pub header_len: usize,
    /// Value length in bytes.
    pub value_len: usize,
}

/// What `decode_usize` returns: the big-endian value of the bytes, unless the
/// input is wider than the platform word or begins with a zero byte.
pub open spec fn decode_usize_spec(b: Seq<u8>) -> Result<usize, DecoderError> {
    if b.len() > word_bytes() {
        Err(DecoderError::RlpIsTooBig)
    } else if b.len() >= 1 && b[0] == 0 {
        Err(DecoderError::RlpInvalidIndirection)
    } else {
        Ok((be_val(b) as usize))
    }
}

/// Layout of a long-form item: `len_of_len` length bytes follow the prefix,
/// the first of them non-zero, and the declared length must need the long form.
pub open spec fn calc_payload_info_spec(b: Seq<u8>, len_of_len: nat) -> Result<
    PayloadInfo,
    DecoderError,
> {
    let header_len = 1 + len_of_len;
    if b.len() >= 2 && b[1] == 0 {
        Err(DecoderError::RlpDataLenWithZeroPrefix)
    } else if b.len() < 2 {
        Err(DecoderError::RlpIsTooShort { expected: 1, got: 0 })
    } else if b.len() < header_len {
        Err(DecoderError::RlpIsTooShort { expected: header_len as usize, got: b.len() as usize })
    } else {
        match decode_usize_spec(b.subrange(1, header_len as int)) {
            Err(e) => Err(e),
            Ok(value_len) => if value_len <= 55 {
                Err(DecoderError::RlpInvalidIndirection)
            } else {
                Ok(PayloadInfo { header_len: header_len as usize, value_len })
            },
        }
    }
}

/// The layout the first byte declares, before any bounds check against the
/// buffer length.
pub open spec fn payload_info_from_spec(b: Seq<u8>) -> Result<PayloadInfo, DecoderError> {
    if b.len() == 0 {
        Err(DecoderError::RlpIsTooShort { expected: 1, got: 0 })
    } else if b[0] <= 0x7f {
        Ok(PayloadInfo { header_len: 0, value_len: 1 })
    } else if b[0] <= 0xb7 {
        Ok(PayloadInfo { header_len: 1, value_len: (b[0] - 0x80) as usize })
    } else if b[0] <= 0xbf {
        calc_payload_info_spec(b, (b[0] - 0xb7) as nat)
    } else if b[0] <= 0xf7 {
        Ok(PayloadInfo { header_len: 1, value_len: (b[0] - 0xc0) as usize })
    } else {
        calc_payload_info_spec(b, (b[0] - 0xf7) as nat)
    }
}

/// The declared layout, with the bound of the buffer enforced: the whole item
/// must fit, and the total must not overflow the platform word.
pub open spec fn checked_payload_info(b: Seq<u8>) -> Result<PayloadInfo, DecoderError> {
    match payload_info_from_spec(b) {
        Err(e) => Err(e),
        Ok(pi) => if pi.header_len + pi.value_len <= usize::MAX && pi.header_len + pi.value_len
            <= b.len() {
            Ok(pi)
        } else {
            Err(DecoderError::RlpIsTooShort { expected: 1, got: 0 })
        },
    }
}

/// Reads a big-endian integer of at most platform-word width whose first byte
/// is non-zero.
pub fn decode_usize(bytes: &[u8]) -> (r: Result<usize, DecoderError>)
    requires
        bytes@.len() >= 1,
    ensures
        r == decode_usize_spec(bytes@),
{
    let l = bytes.len();
    if l > core::mem::size_of::<usize>() {
        return Err(DecoderError::RlpIsTooBig);
    }
    if *vstd::slice::slice_index_get(bytes, 0) == 0 {
        return Err(DecoderError::RlpInvalidIndirection);
    }
    let mut res: usize = 0;
    let mut i: usize = 0;
    while i < l
        invariant
            i <= l,
            l == bytes@.len() <= word_bytes(),
            res == be_val(bytes@.subrange(0, i as int)),
            res < pow256(i as nat),
        decreases l - i,
    {
        proof {
            lemma_be_val_push(bytes@.subrange(0, i as int), bytes@[i as int]);
            assert(bytes@.subrange(0, i as int).push(bytes@[i as int]) =~= bytes@.subrange(
                0,
                i as int + 1,
            ));
            assert(pow256((i + 1) as nat) == 256 * pow256(i as nat));
            lemma_pow256_le((i + 1) as nat, word_bytes());
            lemma_word_bytes();
        }
        res = res * 256 + (*vstd::slice::slice_index_get(bytes, i) as usize);
        i += 1;
    }
    proof {
        assert(bytes@.subrange(0, l as int) =~= bytes@);
    }
    Ok(res)
}

impl PayloadInfo {
    /// Total size of the item: header and payload together.
    pub fn total(&self) -> (r: usize)
        requires
            self.header_len + self.value_len <= usize::MAX,
        ensures
            r == self.header_len + self.value_len,
    {
        self.header_len + self.value_len
    }

    fn new(header_len: usize, value_len: usize) -> (r: PayloadInfo)
        ensures
            r == (PayloadInfo { header_len, value_len }),
    {
        PayloadInfo { header_len, value_len }
    }

    /// Reads the layout the first bytes declare; only the header bytes are
    /// inspected, nothing is checked against the buffer's own length.
    pub fn from(header_bytes: &[u8]) -> (r: Result<PayloadInfo, DecoderError>)
        ensures
            r == payload_info_from_spec(header_bytes@),
    {
        if header_bytes.len() == 0 {
            return Err(DecoderError::RlpIsTooShort { expected: 1, got: 0 });
        }
        let b0 = *vstd::slice::slice_index_get(header_bytes, 0);
        if b0 <= 0x7f {
            Ok(PayloadInfo::new(0, 1))
        } else if b0 <= 0xb7 {
            Ok(PayloadInfo::new(1, (b0 - 0x80) as usize))
        } else if b0 <= 0xbf {
            calculate_payload_info(header_bytes, (b0 - 0xb7) as usize)
        } else if b0 <= 0xf7 {
            Ok(PayloadInfo::new(1, (b0 - 0xc0) as usize))
        } else {
            calculate_payload_info(header_bytes, (b0 - 0xf7) as usize)
        }
    }
}

// ---------------------------------------------------------------------------
// The canonical encoding
// ---------------------------------------------------------------------------

/// The header for a payload of `len` bytes: one byte for the short form, a
/// prefix byte plus the minimal big-endian length for the long form. `base` is
/// 0x80 for data and 0xc0 for lists.
pub open spec fn header_seq(base: u8, len: nat) -> Seq<u8> {
    if len <= 55 {
        seq![(base + len) as u8]
    } else {
        seq![(base as nat + 55 + be_len(len)) as u8] + be_bytes(len)
    }
}

/// The canonical encoding of a data item: a single byte below 0x80 stands for
/// itself, anything else gets a header.
pub open spec fn enc_data(p: Seq<u8>) -> Seq<u8> {
    if p.len() == 1 && p[0] < 0x80 {
        p
    } else {
        header_seq(0x80, p.len()) + p
    }
}

/// The canonical encoding of a list whose children together encode to `p`.
pub open spec fn enc_list_payload(p: Seq<u8>) -> Seq<u8> {
    header_seq(0xc0, p.len()) + p
}

/// An RLP item: an opaque byte string, or an ordered sequence of items.
pub ghost enum Item {
    Data(Seq<u8>),
    List(Seq<Item>),
}

/// The number of children of a list item; zero for a data item.
pub open spec fn child_count(it: Item) -> nat {
    match it {
        Item::Data(_) => 0,
        Item::List(items) => items.len(),
    }
}

/// The canonical encoding of an item.
pub open spec fn enc_item(it: Item) -> Seq<u8>
    decreases it, child_count(it) + 1,
{
    match it {
        Item::Data(d) => enc_data(d),
        Item::List(_) => enc_list_payload(enc_items_from(it, 0)),
    }
}

/// The concatenated encodings of the children of a list item, from child `i` on.
pub open spec fn enc_items_from(it: Item, i: nat) -> Seq<u8>
    decreases it, child_count(it) - i,
{
    match it {
        Item::Data(_) => Seq::empty(),
        Item::List(items) => if i < items.len() {
            enc_item(items[i as int]) + enc_items_from(it, i + 1)
        } else {
            Seq::empty()
        },
    }
}

/// The payload a data item carries, as the value decoder extracts it: the
/// canonicality checks of the grammar applied to the raw bytes.
pub open spec fn value_payload(b: Seq<u8>) -> Result<Seq<u8>, DecoderError> {
    if b.len() == 0 {
        Err(DecoderError::RlpIsTooShort { expected: 1, got: 0 })
    } else if b[0] <= 0x7f {
        Ok(seq![b[0]])
    } else if b[0] <= 0xb7 {
        let last = 1 + (b[0] - 0x80);
        if b.len() < last {
            Err(DecoderError::RlpInconsistentLengthAndData { max: b.len() as usize, index: last as usize })
        } else {
            let d = b.subrange(1, last);
            if b[0] == 0x81 && d[0] < 0x80 {
                Err(DecoderError::RlpInvalidIndirection)
            } else {
                Ok(d)
            }
        }
    } else if b[0] <= 0xbf {
        let begin = 1 + (b[0] - 0xb7);
        if b.len() < begin {
            Err(DecoderError::RlpInconsistentLengthAndData { max: b.len() as usize, index: begin as usize })
        } else {
            match decode_usize_spec(b.subrange(1, begin)) {
                Err(e) => Err(e),
                Ok(len) => if begin + len > usize::MAX {
                    Err(DecoderError::RlpInvalidLength { expected: usize::MAX, got: usize::MAX })
                } else if b.len() < begin + len {
                    Err(DecoderError::RlpInconsistentLengthAndData {
                        max: b.len() as usize,
                        index: (begin + len) as usize,
                    })
                } else {
                    Ok(b.subrange(begin as int, begin + len))
                },
            }
        }
    } else {
        Err(DecoderError::RlpExpectedToBeData)
    }
}

// ---------------------------------------------------------------------------
// The encoder and the header grammar are inverse
// ---------------------------------------------------------------------------

/// The header of an encoded item declares exactly the item's own extent, also
/// when further bytes follow it in the buffer.
pub proof fn lemma_payload_info_of_header(base: u8, p: Seq<u8>, rest: Seq<u8>)
    requires
        base == 0x80 || base == 0xc0,
        p.len() <= usize::MAX,
    ensures
        ({
            let e = header_seq(base, p.len()) + p;
            payload_info_from_spec(e + rest) == Ok::<PayloadInfo, DecoderError>(
                PayloadInfo {
                    header_len: (header_seq(base, p.len()).len()) as usize,
                    value_len: p.len() as usize,
                },
            )
        }),
{
    let h = header_seq(base, p.len());
    let e = h + p;
    let b = e + rest;
    let len = p.len();
    lemma_word_bytes();
    if len <= 55 {
        assert(b[0] == (base + len) as u8);
    } else {
        let k = be_len(len);
        lemma_be_len_le(len, word_bytes());
        lemma_be_bytes_len(len);
        lemma_be_bytes_first_nonzero(len);
        lemma_be_bytes_val(len);
        assert(b[0] == (base as nat + 55 + k) as u8);
        let lol = k;
        assert(h.len() == 1 + k);
        assert(b.len() >= 1 + k + len);
        assert(b[1] == be_bytes(len)[0]);
        assert(b.subrange(1, (1 + lol) as int) =~= be_bytes(len));
        assert(decode_usize_spec(be_bytes(len)) == Ok::<usize, DecoderError>(len as usize));
        if base == 0x80 {
            assert(0xb8 <= b[0] <= 0xbf);
            assert(calc_payload_info_spec(b, lol) == Ok::<PayloadInfo, DecoderError>(
                PayloadInfo { header_len: (1 + k) as usize, value_len: len as usize },
            ));
        } else {
            assert(0xf8 <= b[0]);
            assert(calc_payload_info_spec(b, lol) == Ok::<PayloadInfo, DecoderError>(
                PayloadInfo { header_len: (1 + k) as usize, value_len: len as usize },
            ));
        }
    }
}

/// The header of an encoded item, data or list, parses back to the layout the
/// encoder used; the whole item fits the declared bounds.
pub proof fn lemma_payload_info_of_enc(it: Item, rest: Seq<u8>)
    requires
        enc_item(it).len() + rest.len() <= usize::MAX,
    ensures
        ({
            let e = enc_item(it);
            &&& checked_payload_info(e + rest) matches Ok(pi)
            &&& checked_payload_info(e + rest) == payload_info_from_spec(e + rest)
            &&& (checked_payload_info(e + rest) matches Ok(pi) ==> pi.header_len + pi.value_len
                == e.len() && pi.header_len <= e.len())
        }),
{
    let e = enc_item(it);
    let b = e + rest;
    match it {
        Item::Data(d) => {
            if d.len() == 1 && d[0] < 0x80 {
                assert(b[0] == d[0]);
                assert(payload_info_from_spec(b) == Ok::<PayloadInfo, DecoderError>(
                    PayloadInfo { header_len: 0, value_len: 1 },
                ));
            } else {
                assert(e == header_seq(0x80, d.len()) + d);
                assert(e.len() >= header_seq(0x80, d.len()).len() + d.len());
                lemma_payload_info_of_header(0x80, d, rest);
                assert((header_seq(0x80, d.len()) + d) + rest =~= b);
            }
        },
        Item::List(items) => {
            let p = enc_items_from(it, 0);
            assert(e == header_seq(0xc0, p.len()) + p);
            lemma_payload_info_of_header(0xc0, p, rest);
            assert((header_seq(0xc0, p.len()) + p) + rest =~= b);
        },
    }
}

/// Extracting the value of a canonically encoded data item gives back the
/// payload the encoder was handed.
pub proof fn lemma_value_payload_of_enc_data(p: Seq<u8>)
    requires
        p.len() + 9 <= usize::MAX,
    ensures
        value_payload(enc_data(p)) == Ok::<Seq<u8>, DecoderError>(p),
{
    let e = enc_data(p);
    let len = p.len();
    lemma_word_bytes();
    if len == 1 && p[0] < 0x80 {
        assert(e == p);
        assert(value_payload(e) == Ok::<Seq<u8>, DecoderError>(seq![p[0]]));
        assert(seq![p[0]] =~= p);
    } else if len <= 55 {
        assert(e == header_seq(0x80, len) + p);
        assert(e[0] == (0x80 + len) as u8);
        assert(e.len() == 1 + len);
        let d = e.subrange(1, (1 + len) as int);
        assert(d =~= p);
        if e[0] == 0x81 {
            assert(len == 1 && p[0] >= 0x80);
        }
    } else {
        let k = be_len(len);
        lemma_be_len_le(len, word_bytes());
        lemma_be_bytes_len(len);
        lemma_be_bytes_first_nonzero(len);
        lemma_be_bytes_val(len);
        assert(e == header_seq(0x80, len) + p);
        assert(e[0] == (0x80 as nat + 55 + k) as u8);
        assert(0xb8 <= e[0] <= 0xbf);
        let begin = 1 + k;
        assert(e.len() == 1 + k + len);
        assert(e.subrange(1, begin as int) =~= be_bytes(len));
        assert(decode_usize_spec(be_bytes(len)) == Ok::<usize, DecoderError>(len as usize));
        assert(e.subrange(begin as int, (begin + len) as int) =~= p);
    }
}

fn calculate_payload_info(header_bytes: &[u8], len_of_len: usize) -> (r: Result<
    PayloadInfo,
    DecoderError,
>)
    requires
        1 <= len_of_len <= 8,
    ensures
        r == calc_payload_info_spec(header_bytes@, len_of_len as nat),
{
    let header_len = 1 + len_of_len;
    if header_bytes.len() >= 2 {
        if *vstd::slice::slice_index_get(header_bytes, 1) == 0 {
            return Err(DecoderError::RlpDataLenWithZeroPrefix);
        }
    } else {
        return Err(DecoderError::RlpIsTooShort { expected: 1, got: 0 });
    }
    if header_bytes.len() < header_len {
        return Err(DecoderError::RlpIsTooShort { expected: header_len, got: header_bytes.len() });
    }
    let len_bytes = vstd::slice::slice_subrange(header_bytes, 1, header_len);
    let value_len = match decode_usize(len_bytes) {
        Ok(v) => v,
        Err(e) => {
            return Err(e);
        },
    };
    if value_len <= 55 {
        return Err(DecoderError::RlpInvalidIndirection);
    }
    Ok(PayloadInfo::new(header_len, value_len))
}

} // verus!
