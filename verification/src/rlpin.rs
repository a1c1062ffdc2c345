//! The view decoder: an immutable, zero-copy handle over a byte slice that
//! classifies the item, exposes its payload, and navigates into list children.

use vstd::prelude::*;

use crate::error::DecoderError;
use crate::grammar::{
    checked_payload_info, value_payload, PayloadInfo,
};

verus! {

// ---------------------------------------------------------------------------
// What each operation returns, as functions of the raw bytes
// ---------------------------------------------------------------------------

/// A null item is an empty buffer.
pub open spec fn is_null_spec(b: Seq<u8>) -> bool {
    b.len() == 0
}

/// A list item starts at 0xc0.
pub open spec fn is_list_spec(b: Seq<u8>) -> bool {
    b.len() > 0 && b[0] >= 0xc0
}

/// A data item starts below 0xc0.
pub open spec fn is_data_spec(b: Seq<u8>) -> bool {
    b.len() > 0 && b[0] < 0xc0
}

/// The empty data item or the empty list.
pub open spec fn is_empty_spec(b: Seq<u8>) -> bool {
    b.len() > 0 && (b[0] == 0xc0 || b[0] == 0x80)
}

/// The payload of a data item: the raw bytes with the header removed. A list
/// has no data payload.
pub open spec fn data_spec(b: Seq<u8>) -> Result<Seq<u8>, DecoderError> {
    if is_list_spec(b) {
        Err(DecoderError::RlpExpectedToBeData)
    } else {
        match checked_payload_info(b) {
            Err(e) => Err(e),
            Ok(pi) => Ok(b.subrange(pi.header_len as int, pi.header_len + pi.value_len)),
        }
    }
}

/// The declared payload length of a data item; 0 for anything else, also for a
/// data item whose own header does not parse.
pub open spec fn size_spec(b: Seq<u8>) -> usize {
    if !is_data_spec(b) {
        0
    } else {
        match checked_payload_info(b) {
            Err(_) => 0,
            Ok(pi) => pi.value_len,
        }
    }
}

/// Skipping `k` whole items from the front of `b`: the remaining bytes and how
/// many were consumed.
pub open spec fn consume_items_spec(b: Seq<u8>, k: nat) -> Result<
    (Seq<u8>, nat),
    DecoderError,
>
    decreases k,
{
    if k == 0 {
        Ok((b, 0 as nat))
    } else {
        match checked_payload_info(b) {
            Err(e) => Err(e),
            Ok(pi) => {
                let t = (pi.header_len + pi.value_len) as nat;
                match consume_items_spec(b.skip(t as int), (k - 1) as nat) {
                    Err(e) => Err(e),
                    Ok((rest, consumed)) => Ok((rest, t + consumed)),
                }
            },
        }
    }
}

/// What navigating to child `i` returns: the exact byte extent of the child,
/// or the first error on the way there. Navigation respects the payload length
/// the list header declares, not the buffer length.
pub open spec fn at_spec(b: Seq<u8>, i: nat) -> Result<Seq<u8>, DecoderError> {
    if !is_list_spec(b) {
        Err(DecoderError::RlpExpectedToBeList)
    } else {
        match checked_payload_info(b) {
            Err(e) => Err(e),
            Ok(pi) => {
                let h = pi.header_len as nat;
                let v = pi.value_len as nat;
                let payload = b.subrange(h as int, (h + v) as int);
                match consume_items_spec(payload, i) {
                    Err(e) => Err(e),
                    Ok((rest, consumed)) => {
                        let new_offset = h + consumed;
                        let offset_max = (h + v - 1) as nat;
                        if new_offset > offset_max {
                            Err(DecoderError::RlpIsTooShort {
                                expected: new_offset as usize,
                                got: offset_max as usize,
                            })
                        } else {
                            match checked_payload_info(rest) {
                                Err(e) => Err(e),
                                Ok(fpi) => Ok(
                                    rest.subrange(0, fpi.header_len + fpi.value_len),
                                ),
                            }
                        }
                    },
                }
            },
        }
    }
}

/// How many children navigation can reach before it stops: items are taken
/// from the declared payload while their start stays within it.
pub open spec fn count_items_from(payload: Seq<u8>, off: nat, max: nat) -> nat
    decreases payload.len(),
{
    if off > max {
        0
    } else {
        match checked_payload_info(payload) {
            Err(_) => 0,
            Ok(pi) => {
                let t = (pi.header_len + pi.value_len) as nat;
                if 1 <= t <= payload.len() {
                    1 + count_items_from(payload.skip(t as int), off + t, max)
                } else {
                    0
                }
            },
        }
    }
}

/// The number of children navigation can reach: zero for anything that is not
/// a well-headed list.
pub open spec fn list_count(b: Seq<u8>) -> nat {
    if !is_list_spec(b) {
        0
    } else {
        match checked_payload_info(b) {
            Err(_) => 0,
            Ok(pi) => {
                let h = pi.header_len as nat;
                let v = pi.value_len as nat;
                count_items_from(b.subrange(h as int, (h + v) as int), h, (h + v - 1) as nat)
            },
        }
    }
}

/// What `item_count` returns: the number of reachable children of a list.
pub open spec fn item_count_spec(b: Seq<u8>) -> Result<usize, DecoderError> {
    if !is_list_spec(b) {
        Err(DecoderError::RlpExpectedToBeList)
    } else {
        Ok(list_count(b) as usize)
    }
}

// ---------------------------------------------------------------------------
// Facts about the navigation functions
// ---------------------------------------------------------------------------

/// Every parsed layout covers at least one byte.
pub proof fn lemma_payload_info_pos(b: Seq<u8>)
    ensures
        checked_payload_info(b) matches Ok(pi) ==> 1 <= pi.header_len + pi.value_len <= b.len(),
{
}

/// Skipping consumes exactly the bytes of the skipped items: at least one byte
/// each, and the remainder is the suffix at the consumed offset.
pub proof fn lemma_consume_items_props(b: Seq<u8>, k: nat)
    ensures
        consume_items_spec(b, k) matches Ok(r) ==> {
            &&& k <= r.1 <= b.len()
            &&& r.0 =~= b.skip(r.1 as int)
        },
    decreases k,
{
    if k > 0 {
        match checked_payload_info(b) {
            Err(_) => {},
            Ok(pi) => {
                let t = (pi.header_len + pi.value_len) as nat;
                lemma_payload_info_pos(b);
                lemma_consume_items_props(b.skip(t as int), (k - 1) as nat);
                match consume_items_spec(b.skip(t as int), (k - 1) as nat) {
                    Err(_) => {},
                    Ok((rest, consumed)) => {
                        assert(b.skip(t as int).skip(consumed as int) =~= b.skip(
                            (t + consumed) as int,
                        ));
                    },
                }
            },
        }
    }
}

/// Navigation reaches at most one child per payload byte.
pub proof fn lemma_count_items_le(payload: Seq<u8>, off: nat, max: nat)
    ensures
        count_items_from(payload, off, max) <= payload.len(),
    decreases payload.len(),
{
    if off <= max {
        match checked_payload_info(payload) {
            Err(_) => {},
            Ok(pi) => {
                let t = (pi.header_len + pi.value_len) as nat;
                if 1 <= t <= payload.len() {
                    lemma_count_items_le(payload.skip(t as int), off + t, max);
                }
            },
        }
    }
}

/// A list has at most one reachable child per byte of its buffer.
pub proof fn lemma_list_count_le(b: Seq<u8>)
    ensures
        list_count(b) <= b.len(),
{
    if is_list_spec(b) {
        match checked_payload_info(b) {
            Err(_) => {},
            Ok(pi) => {
                let h = pi.header_len as nat;
                let v = pi.value_len as nat;
                lemma_count_items_le(b.subrange(h as int, (h + v) as int), h, (h + v - 1) as nat);
            },
        }
    }
}

// ---------------------------------------------------------------------------
// The view
// ---------------------------------------------------------------------------

/// RLP prototype: the coarse classification of an item.
#[derive(Clone, Copy, Debug, PartialEq, Eq, Structural)]
pub enum Prototype {
    /// Empty buffer.
    Null,
    /// Data item, with its payload length.
    Data(usize),
    /// List item, with its child count.
    List(usize),
}

/// What `prototype` returns.
pub open spec fn prototype_spec(b: Seq<u8>) -> Result<Prototype, DecoderError> {
    if is_data_spec(b) {
        Ok(Prototype::Data(size_spec(b)))
    } else if is_list_spec(b) {
        match item_count_spec(b) {
            Err(e) => Err(e),
            Ok(n) => Ok(Prototype::List(n)),
        }
    } else {
        Ok(Prototype::Null)
    }
}

/// Data-oriented view onto an RLP slice. No operation changes it; navigation
/// recomputes offsets on every call, so two views over the same bytes are
/// interchangeable in every observable way.
#[derive(Clone, Copy, Debug)]
pub struct Rlp<'a> {
    bytes: &'a [u8],
}

impl<'a> View for Rlp<'a> {
    type V = Seq<u8>;

    closed spec fn view(&self) -> Seq<u8> {
        self.bytes@
    }
}

impl<'a> Rlp<'a> {
    /// Wraps a slice without validation.
    pub fn new(bytes: &'a [u8]) -> (r: Rlp<'a>)
        ensures
            r@ == bytes@,
    {
        Rlp { bytes }
    }

    /// The raw bytes of this item, header included.
    pub fn as_raw(&self) -> (r: &'a [u8])
        ensures
            r@ == self@,
    {
        self.bytes
    }

    pub fn is_null(&self) -> (r: bool)
        ensures
            r == is_null_spec(self@),
    {
        self.bytes.len() == 0
    }

    pub fn is_empty(&self) -> (r: bool)
        ensures
            r == is_empty_spec(self@),
    {
        if self.bytes.len() == 0 {
            false
        } else {
            let b0 = *vstd::slice::slice_index_get(self.bytes, 0);
            b0 == 0xc0 || b0 == 0x80
        }
    }

    pub fn is_list(&self) -> (r: bool)
        ensures
            r == is_list_spec(self@),
    {
        self.bytes.len() > 0 && *vstd::slice::slice_index_get(self.bytes, 0) >= 0xc0
    }

    pub fn is_data(&self) -> (r: bool)
        ensures
            r == is_data_spec(self@),
    {
        self.bytes.len() > 0 && *vstd::slice::slice_index_get(self.bytes, 0) < 0xc0
    }

    /// The layout of this item, bounds against the buffer enforced.
    pub fn payload_info(&self) -> (r: Result<PayloadInfo, DecoderError>)
        ensures
            r == checked_payload_info(self@),
    {
        BasicDecoder::checked_info(self.bytes)
    }

    /// The raw payload slice, header excluded; an error on a list item.
    pub fn data(&self) -> (r: Result<&'a [u8], DecoderError>)
        ensures
            match r {
                Ok(d) => data_spec(self@) == Ok::<Seq<u8>, DecoderError>(d@),
                Err(e) => data_spec(self@) == Err::<Seq<u8>, DecoderError>(e),
            },
    {
        if self.is_list() {
            return Err(DecoderError::RlpExpectedToBeData);
        }
        let pi = match BasicDecoder::checked_info(self.bytes) {
            Ok(pi) => pi,
            Err(e) => {
                return Err(e);
            },
        };
        Ok(vstd::slice::slice_subrange(self.bytes, pi.header_len, pi.header_len + pi.value_len))
    }

    /// The declared payload length of a data item; 0 for a list or a
    /// malformed header.
    pub fn size(&self) -> (r: usize)
        ensures
            r == size_spec(self@),
    {
        if !self.is_data() {
            return 0;
        }
        match BasicDecoder::checked_info(self.bytes) {
            Ok(pi) => pi.value_len,
            Err(_) => 0,
        }
    }

    /// Navigates to the `index`-th child of a list: returns a view over
    /// exactly the child's bytes, or the first error on the way there.
    pub fn at(&self, index: usize) -> (r: Result<Rlp<'a>, DecoderError>)
        ensures
            match r {
                Ok(sub) => at_spec(self@, index as nat) == Ok::<Seq<u8>, DecoderError>(sub@),
                Err(e) => at_spec(self@, index as nat) == Err::<Seq<u8>, DecoderError>(e),
            },
    {
        if !self.is_list() {
            return Err(DecoderError::RlpExpectedToBeList);
        }
        let (payload, bytes_consumed) = match self.consume_list_payload() {
            Ok(p) => p,
            Err(e) => {
                return Err(e);
            },
        };
        let (rest, consumed) = match Rlp::consume_items(payload, index) {
            Ok(p) => p,
            Err(e) => {
                return Err(e);
            },
        };
        let info = match self.payload_info() {
            Ok(pi) => pi,
            Err(e) => {
                return Err(e);
            },
        };
        proof {
            lemma_payload_info_pos(self@);
            lemma_consume_items_props(payload@, index as nat);
        }
        let offset_max = info.header_len + info.value_len - 1;
        let new_offset = bytes_consumed + consumed;
        if new_offset > offset_max {
            return Err(DecoderError::RlpIsTooShort { expected: new_offset, got: offset_max });
        }
        let found = match BasicDecoder::checked_info(rest) {
            Ok(pi) => pi,
            Err(e) => {
                return Err(e);
            },
        };
        Ok(Rlp::new(vstd::slice::slice_subrange(rest, 0, found.header_len + found.value_len)))
    }

    /// The number of children navigation can reach in this list.
    pub fn item_count(&self) -> (r: Result<usize, DecoderError>)
        ensures
            r == item_count_spec(self@),
    {
        if !self.is_list() {
            return Err(DecoderError::RlpExpectedToBeList);
        }
        let info = match BasicDecoder::checked_info(self.bytes) {
            Ok(pi) => pi,
            Err(_) => {
                return Ok(0);
            },
        };
        proof {
            lemma_payload_info_pos(self@);
        }
        let ghost h = info.header_len as nat;
        let ghost v = info.value_len as nat;
        let ghost payload = self@.subrange(h as int, (h + v) as int);
        let ghost max = (h + v - 1) as nat;
        let mut i: usize = 0;
        loop
            invariant
                is_list_spec(self@),
                checked_payload_info(self@) == Ok::<PayloadInfo, DecoderError>(info),
                h == info.header_len as nat,
                v == info.value_len as nat,
                payload == self@.subrange(h as int, (h + v) as int),
                max == (h + v - 1) as nat,
                i as nat <= count_items_from(payload, h, max),
                count_items_from(payload, h, max) == i as nat + count_items_from(
                    skip_of(payload, i as nat),
                    h + consumed_of(payload, i as nat),
                    max,
                ),
                consume_items_spec(payload, i as nat) matches Ok(p) && p.1 == consumed_of(
                    payload,
                    i as nat,
                ),
                i <= v,
            decreases v - i,
        {
            match self.at(i) {
                Ok(_) => {
                    proof {
                        lemma_count_step(payload, i as nat, h, max);
                        lemma_consume_items_props(payload, (i + 1) as nat);
                    }
                    i = i + 1;
                },
                Err(_) => {
                    proof {
                        lemma_count_stop(payload, i as nat, h, max, self@);
                    }
                    return Ok(i);
                },
            }
        }
    }

    /// An iterator over the children, in index order.
    pub fn iter(&self) -> (r: RlpIterator<'a>)
        ensures
            r.underlying() == self@,
            r.cursor() == 0,
    {
        RlpIterator { rlp: *self, index: 0 }
    }

    /// The coarse classification of this item.
    pub fn prototype(&self) -> (r: Result<Prototype, DecoderError>)
        ensures
            r == prototype_spec(self@),
    {
        if self.is_data() {
            Ok(Prototype::Data(self.size()))
        } else if self.is_list() {
            match self.item_count() {
                Ok(n) => Ok(Prototype::List(n)),
                Err(e) => Err(e),
            }
        } else {
            Ok(Prototype::Null)
        }
    }

    /// Whether this item is a canonically encoded unsigned integer: the
    /// payload must not start with a zero byte.
    pub fn is_int(&self) -> (r: bool)
        requires
            self@.len() > 0 && 0x81 <= self@[0] <= 0xb7 ==> self@.len() >= 2,
        ensures
            r == ({
                let b = self@;
                if b.len() == 0 {
                    false
                } else if b[0] <= 0x80 {
                    true
                } else if b[0] <= 0xb7 {
                    b[1] != 0
                } else if b[0] <= 0xbf {
                    let payload_idx = 1 + (b[0] - 0xb7);
                    payload_idx < b.len() && b[payload_idx] != 0
                } else {
                    false
                }
            }),
    {
        if self.bytes.len() == 0 {
            return false;
        }
        let b0 = *vstd::slice::slice_index_get(self.bytes, 0);
        if b0 <= 0x80 {
            true
        } else if b0 <= 0xb7 {
            *vstd::slice::slice_index_get(self.bytes, 1) != 0
        } else if b0 <= 0xbf {
            let payload_idx = 1 + (b0 - 0xb7) as usize;
            payload_idx < self.bytes.len() && *vstd::slice::slice_index_get(
                self.bytes,
                payload_idx,
            ) != 0
        } else {
            false
        }
    }

    /// The value decoder for this view.
    pub fn decoder(&self) -> (r: BasicDecoder<'a>)
        ensures
            r@ == self@,
    {
        BasicDecoder::new(*self)
    }

    /// Consumes the list header: the declared payload region and the header
    /// length.
    fn consume_list_payload(&self) -> (r: Result<(&'a [u8], usize), DecoderError>)
        ensures
            match r {
                Ok(p) => checked_payload_info(self@) matches Ok(pi) && p.0@ == self@.subrange(
                    pi.header_len as int,
                    pi.header_len + pi.value_len,
                ) && p.1 == pi.header_len,
                Err(e) => checked_payload_info(self@) == Err::<PayloadInfo, DecoderError>(e),
            },
    {
        let item = match BasicDecoder::checked_info(self.bytes) {
            Ok(pi) => pi,
            Err(e) => {
                return Err(e);
            },
        };
        let expected = item.header_len + item.value_len;
        if self.bytes.len() < expected {
            return Err(DecoderError::RlpIsTooShort { expected, got: self.bytes.len() });
        }
        Ok((
            vstd::slice::slice_subrange(self.bytes, item.header_len, expected),
            item.header_len,
        ))
    }

    /// Skips a fixed number of items from the front of `bytes`.
    fn consume_items(bytes: &'a [u8], items: usize) -> (r: Result<(&'a [u8], usize), DecoderError>)
        ensures
            match r {
                Ok(p) => consume_items_spec(bytes@, items as nat) == Ok::<
                    (Seq<u8>, nat),
                    DecoderError,
                >((p.0@, p.1 as nat)),
                Err(e) => consume_items_spec(bytes@, items as nat) == Err::<
                    (Seq<u8>, nat),
                    DecoderError,
                >(e),
            },
    {
        let total_len = bytes.len();
        let mut result = bytes;
        let mut consumed: usize = 0;
        let mut j: usize = 0;
        while j < items
            invariant
                j <= items,
                total_len == bytes@.len(),
                consumed + result@.len() <= bytes@.len(),
                consume_items_spec(bytes@, items as nat) == (match consume_items_spec(
                    result@,
                    (items - j) as nat,
                ) {
                    Ok(p) => Ok::<(Seq<u8>, nat), DecoderError>((p.0, consumed as nat + p.1)),
                    Err(e) => Err::<(Seq<u8>, nat), DecoderError>(e),
                }),
            decreases items - j,
        {
            let info = match BasicDecoder::checked_info(result) {
                Ok(pi) => pi,
                Err(e) => {
                    return Err(e);
                },
            };
            proof {
                lemma_payload_info_pos(result@);
            }
            let to_consume = info.header_len + info.value_len;
            result = match Rlp::consume(result, to_consume) {
                Ok(rem) => rem,
                Err(e) => {
                    return Err(e);
                },
            };
            consumed = consumed + to_consume;
            j = j + 1;
        }
        Ok((result, consumed))
    }

    /// Drops a prefix of `len` bytes.
    fn consume(bytes: &'a [u8], len: usize) -> (r: Result<&'a [u8], DecoderError>)
        ensures
            match r {
                Ok(rem) => bytes@.len() >= len && rem@ == bytes@.skip(len as int),
                Err(e) => bytes@.len() < len && e == (DecoderError::RlpIsTooShort {
                    expected: len,
                    got: bytes@.len() as usize,
                }),
            },
    {
        if bytes.len() >= len {
            Ok(vstd::slice::slice_subrange(bytes, len, bytes.len()))
        } else {
            Err(DecoderError::RlpIsTooShort { expected: len, got: bytes.len() })
        }
    }
}

impl<'a> Rlp<'a> {
    /// Decodes every reachable child as a value of type `T`, in order; the
    /// first decode error wins. A non-list has no reachable children, so it
    /// yields the empty vector.
    pub fn as_list<T: crate::traits::Decodable>(&self) -> (r: Result<Vec<T>, DecoderError>)
        ensures
            match r {
                Ok(vs) => crate::traits::list_decoded::<T>(self@) == Ok::<
                    Seq<<T as DeepView>::V>,
                    DecoderError,
                >(vs.deep_view()),
                Err(e) => crate::traits::list_decoded::<T>(self@) == Err::<
                    Seq<<T as DeepView>::V>,
                    DecoderError,
                >(e),
            },
    {
        let ghost b = self@;
        let mut out: Vec<T> = Vec::new();
        if !self.is_list() {
            proof {
                assert(out.deep_view() =~= Seq::<<T as DeepView>::V>::empty());
            }
            return Ok(out);
        }
        let info = match BasicDecoder::checked_info(self.bytes) {
            Ok(pi) => pi,
            Err(_) => {
                proof {
                    assert(out.deep_view() =~= Seq::<<T as DeepView>::V>::empty());
                }
                return Ok(out);
            },
        };
        proof {
            lemma_payload_info_pos(self@);
        }
        let ghost n = list_count(b);
        let ghost h = info.header_len as nat;
        let ghost v = info.value_len as nat;
        let ghost payload = self@.subrange(h as int, (h + v) as int);
        let ghost max = (h + v - 1) as nat;
        let mut i: usize = 0;
        loop
            invariant
                is_list_spec(b),
                b == self@,
                checked_payload_info(b) == Ok::<PayloadInfo, DecoderError>(info),
                h == info.header_len as nat,
                v == info.value_len as nat,
                payload == b.subrange(h as int, (h + v) as int),
                max == (h + v - 1) as nat,
                n == list_count(b),
                n == count_items_from(payload, h, max),
                i as nat <= n,
                count_items_from(payload, h, max) == i as nat + count_items_from(
                    skip_of(payload, i as nat),
                    h + consumed_of(payload, i as nat),
                    max,
                ),
                consume_items_spec(payload, i as nat) matches Ok(p) && p.1 == consumed_of(
                    payload,
                    i as nat,
                ),
                i <= v,
                crate::traits::list_decoded::<T>(b) == (match crate::traits::decode_children::<T>(
                    b,
                    i as nat,
                    n,
                ) {
                    Ok(rest) => Ok::<Seq<<T as DeepView>::V>, DecoderError>(out.deep_view() + rest),
                    Err(e) => Err::<Seq<<T as DeepView>::V>, DecoderError>(e),
                }),
            decreases v - i,
        {
            match self.at(i) {
                Ok(sub) => {
                    proof {
                        lemma_count_step(payload, i as nat, h, max);
                        lemma_consume_items_props(payload, (i + 1) as nat);
                        assert((i as nat) < n);
                    }
                    match sub.as_val::<T>() {
                        Ok(val) => {
                            let ghost out0 = out.deep_view();
                            let ghost vd = val.deep_view();
                            out.push(val);
                            proof {
                                assert(out.deep_view() =~= out0 + seq![vd]);
                                match crate::traits::decode_children::<T>(b, i as nat + 1, n) {
                                    Ok(r2) => {
                                        assert(out0 + (seq![vd] + r2) =~= (out0 + seq![vd]) + r2);
                                    },
                                    Err(_) => {},
                                }
                            }
                            i = i + 1;
                        },
                        Err(e) => {
                            proof {
                                assert(crate::traits::decode_children::<T>(b, i as nat, n)
                                    == Err::<Seq<<T as DeepView>::V>, DecoderError>(e));
                            }
                            return Err(e);
                        },
                    }
                },
                Err(_) => {
                    proof {
                        lemma_count_stop(payload, i as nat, h, max, b);
                        assert(n == i as nat);
                        assert(crate::traits::decode_children::<T>(b, i as nat, n) == Ok::<
                            Seq<<T as DeepView>::V>,
                            DecoderError,
                        >(Seq::empty()));
                        assert(out.deep_view() + Seq::<<T as DeepView>::V>::empty()
                            =~= out.deep_view());
                    }
                    return Ok(out);
                },
            }
        }
    }

    /// Decodes the `index`-th child as a list of values of type `T`.
    pub fn list_at<T: crate::traits::Decodable>(&self, index: usize) -> (r: Result<
        Vec<T>,
        DecoderError,
    >)
        ensures
            match at_spec(self@, index as nat) {
                Err(e) => r == Err::<Vec<T>, DecoderError>(e),
                Ok(sub) => match r {
                    Ok(vs) => crate::traits::list_decoded::<T>(sub) == Ok::<
                        Seq<<T as DeepView>::V>,
                        DecoderError,
                    >(vs.deep_view()),
                    Err(e) => crate::traits::list_decoded::<T>(sub) == Err::<
                        Seq<<T as DeepView>::V>,
                        DecoderError,
                    >(e),
                },
            },
    {
        match self.at(index) {
            Ok(sub) => sub.as_list(),
            Err(e) => Err(e),
        }
    }
}

// ---------------------------------------------------------------------------
// Counting helpers
// ---------------------------------------------------------------------------

/// The bytes left after skipping `k` items, when skipping succeeds.
pub open spec fn skip_of(payload: Seq<u8>, k: nat) -> Seq<u8> {
    match consume_items_spec(payload, k) {
        Ok(p) => p.0,
        Err(_) => Seq::empty(),
    }
}

/// The bytes consumed by skipping `k` items, when skipping succeeds.
pub open spec fn consumed_of(payload: Seq<u8>, k: nat) -> nat {
    match consume_items_spec(payload, k) {
        Ok(p) => p.1,
        Err(_) => 0,
    }
}

/// One successful navigation step extends the skip by one item.
proof fn lemma_count_step(payload: Seq<u8>, i: nat, h: nat, max: nat)
    requires
        consume_items_spec(payload, i) is Ok,
        h + consumed_of(payload, i) <= max,
        checked_payload_info(skip_of(payload, i)) is Ok,
        count_items_from(payload, i as nat, max) >= 0,
    ensures
        consume_items_spec(payload, i + 1) is Ok,
        count_items_from(skip_of(payload, i), h + consumed_of(payload, i), max) == 1
            + count_items_from(skip_of(payload, i + 1), h + consumed_of(payload, i + 1), max),
    decreases i,
{
    lemma_consume_items_props(payload, i);
    let rest = skip_of(payload, i);
    let c = consumed_of(payload, i);
    let pi = checked_payload_info(rest)->Ok_0;
    let t = (pi.header_len + pi.value_len) as nat;
    lemma_payload_info_pos(rest);
    lemma_consume_add_one(payload, i);
    assert(count_items_from(rest, h + c, max) == 1 + count_items_from(
        rest.skip(t as int),
        h + c + t,
        max,
    ));
}

/// Skipping `i + 1` items is skipping `i` and then one more.
proof fn lemma_consume_add_one(payload: Seq<u8>, i: nat)
    requires
        consume_items_spec(payload, i) is Ok,
        checked_payload_info(skip_of(payload, i)) is Ok,
    ensures
        consume_items_spec(payload, i + 1) is Ok,
        ({
            let pi = checked_payload_info(skip_of(payload, i))->Ok_0;
            let t = (pi.header_len + pi.value_len) as nat;
            skip_of(payload, i + 1) == skip_of(payload, i).skip(t as int) && consumed_of(
                payload,
                i + 1,
            ) == consumed_of(payload, i) + t
        }),
    decreases i,
{
    let rest = skip_of(payload, i);
    let pi = checked_payload_info(rest)->Ok_0;
    let t = (pi.header_len + pi.value_len) as nat;
    if i == 0 {
        assert(skip_of(payload, 0) == payload);
        assert(consume_items_spec(rest.skip(t as int), 0 as nat) == Ok::<
            (Seq<u8>, nat),
            DecoderError,
        >((rest.skip(t as int), 0 as nat)));
        assert(consume_items_spec(payload, 1 as nat) == Ok::<(Seq<u8>, nat), DecoderError>(
            (payload.skip(t as int), t),
        ));
    } else {
        let pi0 = checked_payload_info(payload)->Ok_0;
        let t0 = (pi0.header_len + pi0.value_len) as nat;
        let tail = payload.skip(t0 as int);
        assert(consume_items_spec(payload, i) == (match consume_items_spec(
            tail,
            (i - 1) as nat,
        ) {
            Ok(q) => Ok::<(Seq<u8>, nat), DecoderError>((q.0, t0 + q.1)),
            Err(e) => Err::<(Seq<u8>, nat), DecoderError>(e),
        }));
        assert(skip_of(payload, i) == skip_of(tail, (i - 1) as nat));
        assert(consumed_of(payload, i) == t0 + consumed_of(tail, (i - 1) as nat));
        lemma_consume_add_one(tail, (i - 1) as nat);
        assert((i - 1) as nat + 1 == i);
        assert(consume_items_spec(payload, i + 1) == (match consume_items_spec(tail, i as nat) {
            Ok(q) => Ok::<(Seq<u8>, nat), DecoderError>((q.0, t0 + q.1)),
            Err(e) => Err::<(Seq<u8>, nat), DecoderError>(e),
        }));
    }
}

/// When a navigation step fails, the count stops at exactly that index.
proof fn lemma_count_stop(payload: Seq<u8>, i: nat, h: nat, max: nat, b: Seq<u8>)
    requires
        is_list_spec(b),
        checked_payload_info(b) is Ok,
        h == checked_payload_info(b)->Ok_0.header_len as nat,
        max + 1 == h + checked_payload_info(b)->Ok_0.value_len as nat,
        payload == b.subrange(h as int, (max + 1) as int),
        consume_items_spec(payload, i) is Ok,
        at_spec(b, i) is Err,
        count_items_from(payload, h, max) == i + count_items_from(
            skip_of(payload, i),
            h + consumed_of(payload, i),
            max,
        ),
    ensures
        count_items_from(payload, h, max) == i,
{
    let rest = skip_of(payload, i);
    let c = consumed_of(payload, i);
    if h + c > max {
        assert(count_items_from(rest, h + c, max) == 0);
    } else {
        match checked_payload_info(rest) {
            Err(_) => {
                assert(count_items_from(rest, h + c, max) == 0);
            },
            Ok(_) => {
                assert(at_spec(b, i) is Ok);
            },
        }
    }
}

// ---------------------------------------------------------------------------
// Iterator
// ---------------------------------------------------------------------------

/// Iterator over the children of a list view. It stops at the first
/// navigation error, which marks the end of the list.
pub struct RlpIterator<'a> {
    rlp: Rlp<'a>,
    index: usize,
}

impl<'a> RlpIterator<'a> {
    /// The bytes of the list this iterator walks.
    pub closed spec fn underlying(&self) -> Seq<u8> {
        self.rlp@
    }

    /// The index of the next child.
    pub closed spec fn cursor(&self) -> nat {
        self.index as nat
    }

    /// The next child, or nothing once navigation fails. The cursor advances
    /// on every call, whatever came back; it saturates at the platform word.
    pub fn next(&mut self) -> (r: Option<Rlp<'a>>)
        ensures
            final(self).underlying() == old(self).underlying(),
            final(self).cursor() == if old(self).cursor() < usize::MAX {
                old(self).cursor() + 1
            } else {
                old(self).cursor()
            },
            match r {
                Some(sub) => at_spec(old(self).underlying(), old(self).cursor()) == Ok::<
                    Seq<u8>,
                    DecoderError,
                >(sub@),
                None => at_spec(old(self).underlying(), old(self).cursor()) is Err,
            },
    {
        let r = self.rlp.at(self.index);
        if self.index < usize::MAX {
            self.index = self.index + 1;
        }
        match r {
            Ok(sub) => Some(sub),
            Err(_) => None,
        }
    }
}

// ---------------------------------------------------------------------------
// The value decoder
// ---------------------------------------------------------------------------

/// Extracts the payload of a data item, enforcing the canonicality checks of
/// the grammar, and hands it to a caller-supplied reader.
pub struct BasicDecoder<'a> {
    rlp: Rlp<'a>,
}

impl<'a> View for BasicDecoder<'a> {
    type V = Seq<u8>;

    closed spec fn view(&self) -> Seq<u8> {
        self.rlp@
    }
}

impl<'a> BasicDecoder<'a> {
    pub fn new(rlp: Rlp<'a>) -> (r: BasicDecoder<'a>)
        ensures
            r@ == rlp@,
    {
        BasicDecoder { rlp }
    }

    /// The layout of the first item, with the buffer bound enforced.
    pub(crate) fn checked_info(bytes: &[u8]) -> (r: Result<PayloadInfo, DecoderError>)
        ensures
            r == checked_payload_info(bytes@),
    {
        let item = match PayloadInfo::from(bytes) {
            Ok(pi) => pi,
            Err(e) => {
                return Err(e);
            },
        };
        if item.value_len <= usize::MAX - item.header_len && item.header_len + item.value_len
            <= bytes.len() {
            Ok(item)
        } else {
            Err(DecoderError::RlpIsTooShort { expected: 1, got: 0 })
        }
    }

    /// Extracts the payload and applies `f` to it. The payload is exactly
    /// what `value_payload` names on the raw bytes.
    pub fn decode_value<T, F: Fn(&[u8]) -> Result<T, DecoderError>>(&self, f: F) -> (r: Result<
        T,
        DecoderError,
    >)
        requires
            forall|d: &[u8]|
                value_payload(self@) == Ok::<Seq<u8>, DecoderError>(d@) ==> call_requires(f, (d,)),
        ensures
            match value_payload(self@) {
                Ok(_) => exists|d: &[u8], fr: Result<T, DecoderError>|
                    {
                        &&& value_payload(self@) == Ok::<Seq<u8>, DecoderError>(d@)
                        &&& #[trigger] call_ensures(f, (d,), fr)
                        &&& r == fr
                    },
                Err(e) => r == Err::<T, DecoderError>(e),
            },
    {
        let bytes = self.rlp.as_raw();
        if bytes.len() == 0 {
            return Err(DecoderError::RlpIsTooShort { expected: 1, got: 0 });
        }
        let l = *vstd::slice::slice_index_get(bytes, 0);
        if l <= 0x7f {
            let d = vstd::slice::slice_subrange(bytes, 0, 1);
            proof {
                assert(d@ =~= seq![self@[0]]);
            }
            f(d)
        } else if l <= 0xb7 {
            let last_index_of = 1 + (l - 0x80) as usize;
            if bytes.len() < last_index_of {
                return Err(DecoderError::RlpInconsistentLengthAndData {
                    max: bytes.len(),
                    index: last_index_of,
                });
            }
            let d = vstd::slice::slice_subrange(bytes, 1, last_index_of);
            if l == 0x81 && *vstd::slice::slice_index_get(d, 0) < 0x80 {
                return Err(DecoderError::RlpInvalidIndirection);
            }
            f(d)
        } else if l <= 0xbf {
            let len_of_len = (l - 0xb7) as usize;
            let begin_of_value = 1 + len_of_len;
            if bytes.len() < begin_of_value {
                return Err(DecoderError::RlpInconsistentLengthAndData {
                    max: bytes.len(),
                    index: begin_of_value,
                });
            }
            let len = match crate::grammar::decode_usize(
                vstd::slice::slice_subrange(bytes, 1, begin_of_value),
            ) {
                Ok(v) => v,
                Err(e) => {
                    return Err(e);
                },
            };
            if len > usize::MAX - begin_of_value {
                return Err(DecoderError::RlpInvalidLength {
                    expected: usize::MAX,
                    got: usize::MAX,
                });
            }
            let last_index_of_value = begin_of_value + len;
            if bytes.len() < last_index_of_value {
                return Err(DecoderError::RlpInconsistentLengthAndData {
                    max: bytes.len(),
                    index: last_index_of_value,
                });
            }
            f(vstd::slice::slice_subrange(bytes, begin_of_value, last_index_of_value))
        } else {
            Err(DecoderError::RlpExpectedToBeData)
        }
    }
}

} // verus!
