//! The stream encoder: an append-only byte buffer with a stack of open-list
//! bookmarks. Each open list reserves one placeholder byte; when its declared
//! number of children has been appended, the placeholder is rewritten into the
//! correct short- or long-form list header, and the finished list counts as
//! one child of the list around it.

use vstd::prelude::*;

use crate::grammar::{
    be_bytes, be_len, enc_data, enc_list_payload, lemma_be_bytes_len, lemma_be_len_le,
    lemma_word_bytes, word_bytes,
};

verus! {

// ---------------------------------------------------------------------------
// The model: what a stream is, mathematically
// ---------------------------------------------------------------------------

/// An unfinished list: how many children it declared and the encodings of the
/// children appended so far.
#[verifier::ext_equal]
pub ghost struct OpenFrame {
    pub declared: nat,
    pub children: Seq<Seq<u8>>,
}

/// The state of a stream: the encodings of the finished top-level items, and
/// the stack of unfinished lists, outermost first.
#[verifier::ext_equal]
pub ghost struct StreamModel {
    pub done: Seq<Seq<u8>>,
    pub open: Seq<OpenFrame>,
}

/// The bytes the open frames occupy: one placeholder byte each, then the
/// children appended so far.
pub open spec fn open_bytes(open: Seq<OpenFrame>) -> Seq<u8>
    decreases open.len(),
{
    if open.len() == 0 {
        Seq::empty()
    } else {
        open_bytes(open.drop_last()) + seq![0u8] + open.last().children.flatten()
    }
}

/// The whole buffer a model describes.
pub open spec fn stream_bytes(m: StreamModel) -> Seq<u8> {
    m.done.flatten() + open_bytes(m.open)
}

/// Appending one finished item: it becomes a child of the innermost open
/// list, or a finished top-level item; a list that thereby reaches its
/// declared count is finished and appended in turn.
pub open spec fn model_push(m: StreamModel, e: Seq<u8>) -> StreamModel
    decreases m.open.len(),
{
    if m.open.len() == 0 {
        StreamModel { done: m.done.push(e), open: m.open }
    } else {
        let f = m.open.last();
        let ch = f.children.push(e);
        if ch.len() == f.declared {
            model_push(
                StreamModel { done: m.done, open: m.open.drop_last() },
                enc_list_payload(ch.flatten()),
            )
        } else {
            StreamModel {
                done: m.done,
                open: m.open.drop_last().push(OpenFrame { declared: f.declared, children: ch }),
            }
        }
    }
}

/// Appending several finished items, in order.
pub open spec fn model_push_all(m: StreamModel, encs: Seq<Seq<u8>>) -> StreamModel
    decreases encs.len(),
{
    if encs.len() == 0 {
        m
    } else {
        model_push_all(model_push(m, encs.first()), encs.drop_first())
    }
}

pub proof fn lemma_model_push_all_snoc(m: StreamModel, encs: Seq<Seq<u8>>, e: Seq<u8>)
    ensures
        model_push_all(m, encs.push(e)) == model_push(model_push_all(m, encs), e),
    decreases encs.len(),
{
    if encs.len() == 0 {
        assert(encs.push(e).first() == e);
        assert(encs.push(e).drop_first() =~= Seq::<Seq<u8>>::empty());
        assert(model_push_all(m, encs.push(e)) == model_push_all(
            model_push(m, e),
            Seq::<Seq<u8>>::empty(),
        ));
        assert(model_push_all(model_push(m, e), Seq::<Seq<u8>>::empty()) == model_push(m, e));
        assert(model_push_all(m, encs) == m);
    } else {
        assert(encs.push(e).first() == encs.first());
        assert(encs.push(e).drop_first() =~= encs.drop_first().push(e));
        assert(model_push_all(m, encs.push(e)) == model_push_all(
            model_push(m, encs.first()),
            encs.drop_first().push(e),
        ));
        assert(model_push_all(m, encs) == model_push_all(
            model_push(m, encs.first()),
            encs.drop_first(),
        ));
        lemma_model_push_all_snoc(model_push(m, encs.first()), encs.drop_first(), e);
    }
}

/// Opening a list and appending exactly its declared number of children is
/// the same as appending the finished list whole.
pub proof fn lemma_model_fill(m: StreamModel, declared: nat, c: Seq<Seq<u8>>, encs: Seq<Seq<u8>>)
    requires
        c.len() + encs.len() == declared,
        encs.len() >= 1,
    ensures
        model_push_all(
            StreamModel { done: m.done, open: m.open.push(OpenFrame { declared, children: c }) },
            encs,
        ) == model_push(m, enc_list_payload((c + encs).flatten())),
    decreases encs.len(),
{
    let st = StreamModel {
        done: m.done,
        open: m.open.push(OpenFrame { declared, children: c }),
    };
    let e0 = encs.first();
    let m1 = model_push(st, e0);
    assert(st.open.last() == OpenFrame { declared, children: c });
    assert(st.open.drop_last() =~= m.open);
    assert(model_push_all(st, encs) == model_push_all(m1, encs.drop_first()));
    if encs.len() == 1 {
        assert(c.push(e0).len() == declared);
        assert((StreamModel { done: m.done, open: st.open.drop_last() }) =~= m);
        assert(c.push(e0) =~= c + encs);
        assert(encs.drop_first() =~= Seq::<Seq<u8>>::empty());
        assert(model_push_all(m1, Seq::<Seq<u8>>::empty()) == m1);
        assert(m1 == model_push(m, enc_list_payload((c + encs).flatten())));
    } else {
        assert(c.push(e0).len() < declared);
        assert(m1 =~= (StreamModel {
            done: m.done,
            open: m.open.push(OpenFrame { declared, children: c.push(e0) }),
        }));
        lemma_model_fill(m, declared, c.push(e0), encs.drop_first());
        assert(c.push(e0) + encs.drop_first() =~= c + encs);
    }
}

// ---------------------------------------------------------------------------
// The encoder
// ---------------------------------------------------------------------------

struct ListInfo {
    /// Index of the placeholder byte of this list.
    position: usize,
    /// Declared number of children.
    max: usize,
    /// Children appended so far.
    current: usize,
    /// The encodings of those children.
    children: Ghost<Seq<Seq<u8>>>,
}

/// The open frames a bookmark stack stands for.
spec fn open_of(frames: Seq<ListInfo>) -> Seq<OpenFrame> {
    Seq::new(
        frames.len(),
        |j: int| OpenFrame { declared: frames[j].max as nat, children: frames[j].children@ },
    )
}

/// Every bookmark counts its children, still waits for more, and points at
/// its placeholder byte: right after the finished items and the frames below
/// it.
spec fn frames_ok(done: Seq<Seq<u8>>, frames: Seq<ListInfo>) -> bool
    decreases frames.len(),
{
    if frames.len() == 0 {
        true
    } else {
        let li = frames.last();
        &&& frames_ok(done, frames.drop_last())
        &&& li.current == li.children@.len()
        &&& li.current < li.max
        &&& 1 <= li.max
        &&& li.position == done.flatten().len() + open_bytes(open_of(frames.drop_last())).len()
    }
}

/// An append-only RLP encoder. Values are appended whole; lists are opened
/// with a declared length and finished automatically when that many children
/// have been appended.
pub struct RlpStream {
    buffer: Vec<u8>,
    unfinished: Vec<ListInfo>,
    done: Ghost<Seq<Seq<u8>>>,
}

impl View for RlpStream {
    type V = StreamModel;

    closed spec fn view(&self) -> StreamModel {
        StreamModel { done: self.done@, open: open_of(self.unfinished@) }
    }
}

impl RlpStream {
    /// The stream invariant: the buffer is exactly the bytes of the model, and
    /// every bookmark points at its placeholder.
    pub closed spec fn wf(&self) -> bool {
        &&& self.buffer@ == stream_bytes(self@)
        &&& frames_ok(self.done@, self.unfinished@)
    }

    /// A fresh, empty stream.
    pub fn new() -> (r: RlpStream)
        ensures
            r.wf(),
            r@ == (StreamModel { done: Seq::<Seq<u8>>::empty(), open: Seq::<OpenFrame>::empty() }),
    {
        let r = RlpStream { buffer: Vec::new(), unfinished: Vec::new(), done: Ghost(Seq::empty()) };
        proof {
            assert(r@.open =~= Seq::<OpenFrame>::empty());
            assert(r@.done.flatten() =~= Seq::<u8>::empty());
            assert(r.buffer@ =~= stream_bytes(r@));
        }
        r
    }

    /// Appends one data item: a header per the grammar, then the bytes.
    pub fn append_value(&mut self, bytes: &[u8]) -> (r: &mut RlpStream)
        requires
            old(self).wf(),
        ensures
            (*r).wf(),
            (*r)@ == model_push(old(self)@, enc_data(bytes@)),
            *final(self) == *final(r),
    {
        let len = bytes.len();
        if len == 1 && *vstd::slice::slice_index_get(bytes, 0) < 0x80 {
            let b0 = *vstd::slice::slice_index_get(bytes, 0);
            self.buffer.push(b0);
            proof {
                assert(enc_data(bytes@) =~= seq![bytes@[0]]);
                assert(self.buffer@ =~= stream_bytes(self@) + enc_data(bytes@));
            }
        } else if len <= 55 {
            self.buffer.push(0x80u8 + len as u8);
            self.buffer.extend_from_slice(bytes);
            proof {
                assert(enc_data(bytes@) =~= seq![((0x80 + bytes@.len()) as u8)] + bytes@);
                assert(self.buffer@ =~= stream_bytes(self@) + enc_data(bytes@));
            }
        } else {
            let len_bytes = be_bytes_vec(len as u64);
            proof {
                assert((len as u64) as nat == len as nat);
                lemma_word_bytes();
                lemma_be_len_le(len as nat, word_bytes());
                lemma_be_bytes_len(len as nat);
            }
            self.buffer.push(0xb7u8 + len_bytes.len() as u8);
            self.buffer.extend_from_slice(len_bytes.as_slice());
            self.buffer.extend_from_slice(bytes);
            proof {
                assert(enc_data(bytes@) =~= seq![((0x80 + 55 + be_len(len as nat)) as u8)]
                    + be_bytes(len as nat) + bytes@);
                assert(self.buffer@ =~= stream_bytes(self@) + enc_data(bytes@));
            }
        }
        self.note_appended(Ghost(enc_data(bytes@)));
        self
    }

    /// Appends the empty data item, `0x80`.
    pub fn append_empty_data(&mut self) -> (r: &mut RlpStream)
        requires
            old(self).wf(),
        ensures
            (*r).wf(),
            (*r)@ == model_push(old(self)@, enc_data(Seq::<u8>::empty())),
            *final(self) == *final(r),
    {
        self.buffer.push(0x80u8);
        proof {
            assert(enc_data(Seq::<u8>::empty()) =~= seq![0x80u8]);
            assert(self.buffer@ =~= stream_bytes(self@) + enc_data(Seq::<u8>::empty()));
        }
        self.note_appended(Ghost(enc_data(Seq::<u8>::empty())));
        self
    }

    /// Opens a list that will hold `len` children. A list of zero children is
    /// complete at once.
    pub fn begin_list(&mut self, len: usize) -> (r: &mut RlpStream)
        requires
            old(self).wf(),
        ensures
            (*r).wf(),
            (*r)@ == if len == 0 {
                model_push(old(self)@, enc_list_payload(Seq::<u8>::empty()))
            } else {
                StreamModel {
                    done: old(self)@.done,
                    open: old(self)@.open.push(
                        OpenFrame { declared: len as nat, children: Seq::empty() },
                    ),
                }
            },
            *final(self) == *final(r),
    {
        if len == 0 {
            self.buffer.push(0xc0u8);
            proof {
                assert(enc_list_payload(Seq::<u8>::empty()) =~= seq![0xc0u8]);
                assert(self.buffer@ =~= stream_bytes(self@) + enc_list_payload(
                    Seq::<u8>::empty(),
                ));
            }
            self.note_appended(Ghost(enc_list_payload(Seq::<u8>::empty())));
        } else {
            let position = self.buffer.len();
            self.buffer.push(0u8);
            self.unfinished.push(
                ListInfo { position, max: len, current: 0, children: Ghost(Seq::empty()) },
            );
            proof {
                let old_f = old(self).unfinished@;
                let new_f = self.unfinished@;
                assert(new_f.drop_last() =~= old_f);
                assert(open_of(new_f).drop_last() =~= open_of(old_f));
                assert(open_of(new_f).last().children.flatten() =~= Seq::<u8>::empty());
                assert(self@.open =~= old(self)@.open.push(
                    OpenFrame { declared: len as nat, children: Seq::empty() },
                ));
                assert(self.buffer@ =~= stream_bytes(self@));
                assert(frames_ok(self.done@, new_f));
            }
        }
        self
    }

    /// Counts one finished item, whose encoding has just been written at the
    /// end of the buffer; finishes every list this completes.
    fn note_appended(&mut self, Ghost(e): Ghost<Seq<u8>>)
        requires
            old(self).buffer@ == stream_bytes(old(self)@) + e,
            frames_ok(old(self).done@, old(self).unfinished@),
        ensures
            final(self).wf(),
            final(self)@ == model_push(old(self)@, e),
        decreases old(self).unfinished@.len(),
    {
        let ghost old_m = old(self)@;
        let ghost old_f = old(self).unfinished@;
        match self.unfinished.pop() {
            None => {
                self.done = Ghost(self.done@.push(e));
                proof {
                    assert(old_m.open =~= Seq::<OpenFrame>::empty());
                    assert(self@.open =~= Seq::<OpenFrame>::empty());
                    old_m.done.lemma_flatten_push(e);
                    assert(self.buffer@ =~= stream_bytes(self@));
                }
            },
            Some(top) => {
                let mut top = top;
                top.current = top.current + 1;
                top.children = Ghost(top.children@.push(e));
                let ghost ch = old_m.open.last().children.push(e);
                proof {
                    assert(self.unfinished@ =~= old_f.drop_last());
                    assert(old_m.open.drop_last() =~= open_of(old_f.drop_last()));
                    assert(self@.open == old_m.open.drop_last());
                    assert(top.children@ == ch);
                    old_m.open.last().children.lemma_flatten_push(e);
                    assert(self.buffer@ =~= stream_bytes(self@) + seq![0u8] + ch.flatten());
                    assert(top.position == stream_bytes(self@).len());
                }
                if top.current == top.max {
                    let payload_len = self.buffer.len() - top.position - 1;
                    let ghost payload = ch.flatten();
                    let ghost popped = self@;
                    self.finish_list(top.position, payload_len, Ghost(popped), Ghost(payload));
                    proof {
                        assert(self@ == popped);
                        assert(self.unfinished@ == old_f.drop_last());
                        assert(model_push(old_m, e) == model_push(
                            popped,
                            enc_list_payload(ch.flatten()),
                        ));
                    }
                    self.note_appended(Ghost(enc_list_payload(payload)));
                } else {
                    let ghost popped = self@;
                    self.unfinished.push(top);
                    proof {
                        let new_f = self.unfinished@;
                        assert(new_f.drop_last() =~= old_f.drop_last());
                        assert(open_of(new_f).drop_last() =~= open_of(old_f.drop_last()));
                        assert(open_of(new_f).last().children == ch);
                        assert(self@.open =~= popped.open.push(
                            OpenFrame { declared: top.max as nat, children: ch },
                        ));
                        assert(self@.open.drop_last() =~= popped.open);
                        assert(self.buffer@ =~= stream_bytes(self@));
                        assert(frames_ok(self.done@, new_f));
                        assert(model_push(old_m, e) == self@);
                    }
                }
            },
        }
    }

    /// Rewrites the placeholder at `position` into the list header for a
    /// payload of `payload_len` bytes, shifting the payload right if the
    /// header needs more than one byte.
    fn finish_list(
        &mut self,
        position: usize,
        payload_len: usize,
        Ghost(prefix_model): Ghost<StreamModel>,
        Ghost(payload): Ghost<Seq<u8>>,
    )
        requires
            old(self).buffer@ == stream_bytes(prefix_model) + seq![0u8] + payload,
            position == stream_bytes(prefix_model).len(),
            payload_len == payload.len(),
        ensures
            final(self).buffer@ == stream_bytes(prefix_model) + enc_list_payload(payload),
            final(self).unfinished == old(self).unfinished,
            final(self).done == old(self).done,
    {
        let blen = self.buffer.len();
        proof {
            assert(blen == position + 1 + payload.len());
        }
        if payload_len <= 55 {
            let header = 0xc0u8 + payload_len as u8;
            let p = vstd::std_specs::vec::vec_index_mut(&mut self.buffer, position);
            *p = header;
            proof {
                assert(enc_list_payload(payload) =~= seq![((0xc0 + payload.len()) as u8)]
                    + payload);
                assert(self.buffer@ =~= stream_bytes(prefix_model) + enc_list_payload(payload));
            }
        } else {
            let mut tail = self.buffer.split_off(position + 1);
            let _placeholder = self.buffer.pop();
            let len_bytes = be_bytes_vec(payload_len as u64);
            proof {
                assert((payload_len as u64) as nat == payload_len as nat);
                lemma_word_bytes();
                lemma_be_len_le(payload_len as nat, word_bytes());
                lemma_be_bytes_len(payload_len as nat);
            }
            self.buffer.push(0xf7u8 + len_bytes.len() as u8);
            self.buffer.extend_from_slice(len_bytes.as_slice());
            self.buffer.append(&mut tail);
            proof {
                assert(enc_list_payload(payload) =~= seq![
                    ((0xc0 + 55 + be_len(payload_len as nat)) as u8),
                ] + be_bytes(payload_len as nat) + payload);
                assert(self.buffer@ =~= stream_bytes(prefix_model) + enc_list_payload(payload));
            }
        }
    }

    /// The finished byte vector; every opened list must have been finished.
    pub fn out(self) -> (r: Vec<u8>)
        requires
            self.wf(),
            self@.open.len() == 0,
        ensures
            r@ == self@.done.flatten(),
    {
        proof {
            assert(self@.open =~= Seq::<OpenFrame>::empty());
            assert(self.buffer@ =~= self@.done.flatten());
        }
        self.buffer
    }

    /// Whether every opened list has been finished.
    pub fn is_finished(&self) -> (r: bool)
        ensures
            r == (self@.open.len() == 0),
    {
        self.unfinished.len() == 0
    }
}

/// The minimal big-endian form of `n`, as a vector.
pub(crate) fn be_bytes_vec(n: u64) -> (r: Vec<u8>)
    ensures
        r@ == be_bytes(n as nat),
{
    let mut v: Vec<u8> = Vec::new();
    let mut m = n;
    while m > 0
        invariant
            be_bytes(n as nat) == be_bytes(m as nat) + v@,
        decreases m,
    {
        proof {
            assert(be_bytes(m as nat) == be_bytes((m as nat) / 256).push((m as nat % 256) as u8));
            assert(be_bytes((m as nat) / 256).push((m as nat % 256) as u8) + v@ =~= be_bytes(
                (m as nat) / 256,
            ) + (seq![(m as nat % 256) as u8] + v@));
            assert((m / 256) as nat == (m as nat) / 256);
            assert(v@.insert(0, (m as nat % 256) as u8) =~= seq![(m as nat % 256) as u8] + v@);
        }
        v.insert(0, (m % 256) as u8);
        m = m / 256;
    }
    proof {
        assert(be_bytes(0 as nat) =~= Seq::<u8>::empty());
        assert(be_bytes(n as nat) =~= v@);
    }
    v
}

} // verus!
