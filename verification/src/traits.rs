//! The two codec contracts: `Encodable` turns a value into its canonical
//! bytes through a stream, `Decodable` reads a value back out of a view.

use vstd::prelude::*;

use crate::error::DecoderError;
use crate::grammar::enc_list_payload;
use crate::rlpin::{at_spec, Rlp};
use crate::stream::{model_push, model_push_all, OpenFrame, RlpStream, StreamModel};

verus! {

/// A value with a canonical RLP encoding.
pub trait Encodable {
    /// The canonical bytes of this value: the one sequence the encoder emits.
    spec fn rlp_encoding(&self) -> Seq<u8>;

    /// Extends the stream with this value's canonical bytes, as one item.
    fn rlp_append(&self, s: &mut RlpStream)
        requires
            old(s).wf(),
        ensures
            final(s).wf(),
            final(s)@ == model_push(old(s)@, self.rlp_encoding()),
    ;

    /// This value's canonical bytes, on their own.
    fn rlp_bytes(&self) -> (r: Vec<u8>)
        ensures
            r@ == self.rlp_encoding(),
    {
        let mut s = RlpStream::new();
        self.rlp_append(&mut s);
        proof {
            let d = Seq::<Seq<u8>>::empty().push(self.rlp_encoding());
            d.lemma_flatten_one_element();
            assert(d.first() == self.rlp_encoding());
        }
        s.out()
    }
}

/// A value that can be read back out of an RLP view.
pub trait Decodable: Sized + DeepView {
    /// What decoding the raw bytes of a view yields: the abstract value, or
    /// the error the grammar demands.
    spec fn rlp_decoded(b: Seq<u8>) -> Result<<Self as DeepView>::V, DecoderError>;

    /// Reads the value this view holds.
    fn decode(rlp: &Rlp) -> (r: Result<Self, DecoderError>)
        ensures
            match r {
                Ok(v) => Self::rlp_decoded(rlp@) == Ok::<<Self as DeepView>::V, DecoderError>(
                    v.deep_view(),
                ),
                Err(e) => Self::rlp_decoded(rlp@) == Err::<<Self as DeepView>::V, DecoderError>(e),
            },
    ;
}

/// Whether a decode result is the one the bytes call for.
pub open spec fn decode_matches<T: Decodable>(b: Seq<u8>, r: Result<T, DecoderError>) -> bool {
    match r {
        Ok(v) => T::rlp_decoded(b) == Ok::<<T as DeepView>::V, DecoderError>(v.deep_view()),
        Err(e) => T::rlp_decoded(b) == Err::<<T as DeepView>::V, DecoderError>(e),
    }
}

/// Decoding the children of a list view, from child `k` up to `n`: the first
/// error wins, as when a caller maps a decoder over an iterator.
pub open spec fn decode_children<T: Decodable>(b: Seq<u8>, k: nat, n: nat) -> Result<
    Seq<<T as DeepView>::V>,
    DecoderError,
>
    decreases n - k,
{
    if k >= n {
        Ok(Seq::empty())
    } else {
        match at_spec(b, k) {
            Err(e) => Err(e),
            Ok(sub) => match T::rlp_decoded(sub) {
                Err(e) => Err(e),
                Ok(v) => match decode_children::<T>(b, k + 1, n) {
                    Err(e) => Err(e),
                    Ok(rest) => Ok(seq![v] + rest),
                },
            },
        }
    }
}

/// What decoding a whole list of `T` yields: every reachable child decoded in
/// order. A non-list or a list whose own header fails yields the empty
/// sequence, because navigation stops at once.
pub open spec fn list_decoded<T: Decodable>(b: Seq<u8>) -> Result<
    Seq<<T as DeepView>::V>,
    DecoderError,
> {
    decode_children::<T>(b, 0, crate::rlpin::list_count(b))
}

/// The canonical encodings of a sequence of values, one by one.
pub open spec fn encodings_of<E: Encodable>(vs: Seq<E>) -> Seq<Seq<u8>> {
    Seq::new(vs.len(), |i: int| vs[i].rlp_encoding())
}

/// The canonical encoding of a list whose children are the given values.
pub open spec fn enc_list_of<E: Encodable>(vs: Seq<E>) -> Seq<u8> {
    enc_list_payload(encodings_of(vs).flatten())
}

impl RlpStream {
    /// Appends one value as one item: its `Encodable` impl writes the bytes.
    pub fn append<E: Encodable>(&mut self, value: &E) -> (r: &mut RlpStream)
        requires
            old(self).wf(),
        ensures
            (*r).wf(),
            (*r)@ == model_push(old(self)@, value.rlp_encoding()),
            *final(self) == *final(r),
    {
        value.rlp_append(self);
        self
    }

    /// Appends one list item whose children are the given values, in order.
    pub fn append_list<E: Encodable>(&mut self, values: &[E]) -> (r: &mut RlpStream)
        requires
            old(self).wf(),
        ensures
            (*r).wf(),
            (*r)@ == model_push(old(self)@, enc_list_of(values@)),
            *final(self) == *final(r),
    {
        let n = values.len();
        let ghost encs = encodings_of(values@);
        self.begin_list(n);
        if n == 0 {
            proof {
                assert(encs.flatten() =~= Seq::<u8>::empty());
            }
            return self;
        }
        let ghost start = self@;
        let mut j: usize = 0;
        while j < n
            invariant
                j <= n,
                n == values@.len(),
                encs == encodings_of(values@),
                start == (StreamModel {
                    done: old(self)@.done,
                    open: old(self)@.open.push(
                        OpenFrame { declared: n as nat, children: Seq::empty() },
                    ),
                }),
                self@ == model_push_all(start, encs.take(j as int)),
                j < n ==> self.wf(),
                j == n ==> self.wf() && self@ == model_push(old(self)@, enc_list_of(values@)),
            decreases n - j,
        {
            let v = vstd::slice::slice_index_get(values, j);
            self.append(v);
            proof {
                crate::stream::lemma_model_push_all_snoc(start, encs.take(j as int), encs[j as int]);
                assert(encs.take(j as int).push(encs[j as int]) =~= encs.take(j as int + 1));
                if j + 1 == n {
                    crate::stream::lemma_model_fill(
                        old(self)@,
                        n as nat,
                        Seq::empty(),
                        encs.take(n as int),
                    );
                    assert(encs.take(n as int) =~= encs);
                    assert(Seq::<Seq<u8>>::empty() + encs =~= encs);
                }
            }
            j = j + 1;
        }
        self
    }
}

impl<'a> Rlp<'a> {
    /// Decodes this view as a value of type `T`.
    pub fn as_val<T: Decodable>(&self) -> (r: Result<T, DecoderError>)
        ensures
            decode_matches::<T>(self@, r),
    {
        T::decode(self)
    }

    /// Decodes the `index`-th child as a value of type `T`.
    pub fn val_at<T: Decodable>(&self, index: usize) -> (r: Result<T, DecoderError>)
        ensures
            match at_spec(self@, index as nat) {
                Err(e) => r == Err::<T, DecoderError>(e),
                Ok(sub) => decode_matches::<T>(sub, r),
            },
    {
        match self.at(index) {
            Ok(sub) => sub.as_val(),
            Err(e) => Err(e),
        }
    }
}

/// Encodes one value into its canonical bytes.
pub fn encode<E: Encodable>(object: &E) -> (r: Vec<u8>)
    ensures
        r@ == object.rlp_encoding(),
{
    object.rlp_bytes()
}

/// Decodes one value out of a byte slice.
pub fn decode<T: Decodable>(bytes: &[u8]) -> (r: Result<T, DecoderError>)
    ensures
        decode_matches::<T>(bytes@, r),
{
    let rlp = Rlp::new(bytes);
    T::decode(&rlp)
}

} // verus!
