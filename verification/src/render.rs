//! The debug rendering of a view: nested lists in brackets, data payloads as
//! quoted lowercase hex.

use vstd::prelude::*;
use vstd::string::StringExecFns;

use crate::error::{describe_spec, DecoderError};
use crate::grammar::checked_payload_info;
use crate::rlpin::{
    at_spec, data_spec, is_data_spec, is_null_spec, is_list_spec, lemma_consume_items_props,
    lemma_list_count_le, list_count, Prototype, Rlp,
};

verus! {

/// The lowercase hex digit of a nibble.
pub open spec fn hex_digit(n: u8) -> char {
    if n < 10 {
        ((n + 48) as u8) as char
    } else {
        ((n + 87) as u8) as char
    }
}

/// The lowercase hex form of a byte string: two digits per byte, high nibble
/// first.
pub open spec fn hex_chars(b: Seq<u8>) -> Seq<char> {
    Seq::new(
        2 * b.len(),
        |i: int|
            if i % 2 == 0 {
                hex_digit(b[i / 2] >> 4u8)
            } else {
                hex_digit(b[i / 2] & 0xfu8)
            },
    )
}

/// Relies on rustc_hex's `ToHex` for `[u8]`: every byte becomes two lowercase
/// hex digits, high nibble first.
#[verifier::external_body]
fn to_hex(bytes: &[u8]) -> (r: String)
    ensures
        r@ == hex_chars(bytes@),
{
    rustc_hex::ToHex::to_hex(bytes)
}

/// A child of a list is strictly smaller than the list.
proof fn lemma_at_shrinks(b: Seq<u8>, i: nat)
    requires
        at_spec(b, i) is Ok,
    ensures
        at_spec(b, i)->Ok_0.len() < b.len(),
{
    let pi = checked_payload_info(b)->Ok_0;
    let h = pi.header_len as nat;
    let v = pi.value_len as nat;
    let payload = b.subrange(h as int, (h + v) as int);
    lemma_consume_items_props(payload, i);
    assert(is_list_spec(b));
    assert(h >= 1);
}

/// What rendering an item yields: `null` for the empty buffer, quoted hex for
/// a data payload, the children of a list in brackets, and the name of the
/// first error where the bytes are malformed.
pub open spec fn render_spec(b: Seq<u8>) -> Seq<char>
    decreases b.len(), b.len() as int + 1,
    via render_spec_dec
{
    if is_null_spec(b) {
        "null"@
    } else if is_data_spec(b) {
        match data_spec(b) {
            Ok(d) => "\"0x"@ + hex_chars(d) + "\""@,
            Err(e) => describe_spec(e),
        }
    } else {
        "["@ + render_children_spec(b, 0, list_count(b)) + "]"@
    }
}

/// The rendering of the children of a list from child `k` up to `n`, joined
/// by commas; a navigation error renders as its name and ends the walk.
pub open spec fn render_children_spec(b: Seq<u8>, k: nat, n: nat) -> Seq<char>
    decreases b.len(), n - k,
    via render_children_spec_dec
{
    if k >= n {
        Seq::empty()
    } else {
        match at_spec(b, k) {
            Err(e) => describe_spec(e),
            Ok(sub) => render_spec(sub) + (if k + 1 < n {
                ", "@
            } else {
                Seq::<char>::empty()
            }) + render_children_spec(b, k + 1, n),
        }
    }
}

#[via_fn]
proof fn render_spec_dec(b: Seq<u8>) {
    lemma_list_count_le(b);
}

#[via_fn]
proof fn render_children_spec_dec(b: Seq<u8>, k: nat, n: nat) {
    if k < n {
        match at_spec(b, k) {
            Ok(_) => {
                lemma_at_shrinks(b, k);
            },
            Err(_) => {},
        }
    }
}

impl<'a> Rlp<'a> {
    /// Renders the item for human eyes: `null` for the empty buffer, quoted
    /// hex for data, brackets around the children of a list, and the name of
    /// the first error where the bytes are malformed.
    pub fn render(&self) -> (r: String)
        ensures
            r@ == render_spec(self@),
        decreases self@.len(),
    {
        let raw_len = self.as_raw().len();
        match self.prototype() {
            Ok(Prototype::Null) => "null".to_owned(),
            Ok(Prototype::Data(_)) => {
                match self.data() {
                    Ok(d) => {
                        let mut out = "\"0x".to_owned();
                        let hex = to_hex(d);
                        out.append(hex.as_str());
                        out.append("\"");
                        proof {
                            assert(out@ == "\"0x"@ + hex_chars(d@) + "\""@);
                        }
                        out
                    },
                    Err(e) => e.describe(),
                }
            },
            Ok(Prototype::List(len)) => {
                let ghost b = self@;
                let ghost nn = len as nat;
                proof {
                    lemma_list_count_le(b);
                    assert(b.len() == raw_len as nat);
                    assert(nn == list_count(b));
                }
                let mut out = "[".to_owned();
                let mut k: usize = 0;
                while k < len
                    invariant
                        b == self@,
                        is_list_spec(b),
                        nn == list_count(b),
                        nn == len as nat,
                        k <= len,
                        out@ + render_children_spec(b, k as nat, nn) == "["@
                            + render_children_spec(b, 0, nn),
                    decreases len - k,
                {
                    match self.at(k) {
                        Ok(sub) => {
                            proof {
                                lemma_at_shrinks(b, k as nat);
                            }
                            let rendered = sub.render();
                            let ghost sep: Seq<char> = if k + 1 < len {
                                ", "@
                            } else {
                                Seq::<char>::empty()
                            };
                            proof {
                                assert(render_children_spec(b, k as nat, nn) == render_spec(sub@)
                                    + sep + render_children_spec(b, k as nat + 1, nn));
                            }
                            let ghost before = out@;
                            out.append(rendered.as_str());
                            if k + 1 < len {
                                out.append(", ");
                            }
                            proof {
                                assert(out@ =~= before + render_spec(sub@) + sep);
                                assert(out@ + render_children_spec(b, k as nat + 1, nn) =~= before
                                    + render_children_spec(b, k as nat, nn));
                            }
                            k += 1;
                        },
                        Err(e) => {
                            proof {
                                assert(render_children_spec(b, k as nat, nn) == describe_spec(e));
                            }
                            let ghost before = out@;
                            let text = e.describe();
                            out.append(text.as_str());
                            out.append("]");
                            proof {
                                assert(out@ =~= (before + render_children_spec(b, k as nat, nn))
                                    + "]"@);
                                assert(out@ =~= ("["@ + render_children_spec(b, 0, nn)) + "]"@);
                            }
                            return out;
                        },
                    }
                }
                proof {
                    assert(render_children_spec(b, nn, nn) == Seq::<char>::empty());
                    assert(out@ =~= "["@ + render_children_spec(b, 0, nn));
                }
                out.append("]");
                proof {
                    assert(out@ =~= ("["@ + render_children_spec(b, 0, nn)) + "]"@);
                }
                out
            },
            Err(e) => {
                proof {
                    assert(false);
                }
                e.describe()
            },
        }
    }
}

} // verus!
