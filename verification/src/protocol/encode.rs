//! Writing RESP values as bytes: the inverse of `wire::parse_value`.

use vstd::prelude::*;
use vstd::utf8::encode_utf8;

use super::{RespValue, RespView, views_of, lemma_views_of_len};
use crate::decimal::{dec_text, push_digits, push_i64_text};
use crate::text::{CR, LF, append_bytes, byte_len};
use super::ErrorView;
use super::laws::{lemma_fits_well_formed, lemma_parse_encode, texts_clean};
use super::wire::spec_parse_value;

verus! {

/// A tag byte, a body, and the `\r\n` that ends the line.
pub open spec fn line(tag: u8, body: Seq<u8>) -> Seq<u8> {
    seq![tag] + body + seq![CR, LF]
}

/// The bytes of one value.
pub open spec fn spec_encode(v: RespView) -> Seq<u8>
    decreases v,
{
    match v {
        RespView::SimpleString(s) => line(43u8, encode_utf8(s)),
        RespView::Error(s) => line(45u8, encode_utf8(s)),
        RespView::Integer(n) => line(58u8, dec_text(n as int)),
        RespView::BulkString(None) => line(36u8, dec_text(-1)),
        RespView::BulkString(Some(d)) => line(36u8, dec_text(d.len() as int)) + d + seq![CR, LF],
        RespView::Array(vs) => line(42u8, dec_text(vs.len() as int)) + spec_encode_all(vs),
    }
}

/// The bytes of several values, one after the other.
pub open spec fn spec_encode_all(vs: Seq<RespView>) -> Seq<u8>
    decreases vs,
{
    if vs.len() == 0 {
        Seq::empty()
    } else {
        spec_encode(vs[0]) + spec_encode_all(vs.subrange(1, vs.len() as int))
    }
}

pub proof fn lemma_encode_all_push(vs: Seq<RespView>, v: RespView)
    ensures
        spec_encode_all(vs.push(v)) == spec_encode_all(vs) + spec_encode(v),
    decreases vs.len(),
{
    if vs.len() == 0 {
        assert(vs.push(v).subrange(1, 1) == Seq::<RespView>::empty());
        assert(vs.push(v)[0] == v);
        assert(spec_encode_all(Seq::<RespView>::empty()) == Seq::<u8>::empty());
        assert(spec_encode_all(vs.push(v)) == spec_encode(v) + Seq::<u8>::empty());
    } else {
        let tail = vs.subrange(1, vs.len() as int);
        lemma_encode_all_push(tail, v);
        assert(vs.push(v).subrange(1, vs.len() + 1int) == tail.push(v));
        assert(spec_encode_all(vs.push(v)) == spec_encode(vs[0]) + (spec_encode_all(tail)
            + spec_encode(v)));
    }
}

fn push_line_end(out: &mut Vec<u8>)
    ensures
        final(out)@ == old(out)@ + seq![CR, LF],
{
    out.push(CR);
    out.push(LF);
}

/// Appends the bytes of `value` to `out`.
fn encode_into(value: &RespValue, out: &mut Vec<u8>)
    ensures
        final(out)@ == old(out)@ + spec_encode(value.view()),
    decreases value,
{
    match value {
        RespValue::SimpleString(s) => {
            out.push(43u8);
            append_bytes(out, s.as_str().as_bytes());
            push_line_end(out);
        },
        RespValue::Error(s) => {
            out.push(45u8);
            append_bytes(out, s.as_str().as_bytes());
            push_line_end(out);
        },
        RespValue::Integer(n) => {
            out.push(58u8);
            push_i64_text(out, *n);
            push_line_end(out);
        },
        RespValue::BulkString(None) => {
            out.push(36u8);
            push_i64_text(out, -1);
            push_line_end(out);
        },
        RespValue::BulkString(Some(data)) => {
            out.push(36u8);
            push_digits(out, data.len() as u64);
            push_line_end(out);
            append_bytes(out, data.as_slice());
            push_line_end(out);
        },
        RespValue::Array(items) => {
            out.push(42u8);
            push_digits(out, items.len() as u64);
            push_line_end(out);
            let ghost header = out@;
            let ghost vs = views_of(items@);
            proof {
                lemma_views_of_len(items@);
                assert(vs.subrange(0, 0) == Seq::<RespView>::empty());
            }
            let mut j: usize = 0;
            #[verifier::loop_isolation(false)]
            while j < items.len()
                invariant
                    0 <= j <= items@.len(),
                    vs == views_of(items@),
                    vs.len() == items@.len(),
                    forall|i: int| 0 <= i < items@.len() ==> #[trigger] vs[i] == items@[i].view(),
                    out@ == header + spec_encode_all(vs.subrange(0, j as int)),
                decreases items@.len() - j,
            {
                encode_into(&items[j], out);
                proof {
                    lemma_encode_all_push(vs.subrange(0, j as int), vs[j as int]);
                    assert(vs.subrange(0, j + 1) == vs.subrange(0, j as int).push(vs[j as int]));
                }
                j = j + 1;
            }
            assert(vs.subrange(0, items@.len() as int) == vs);
        },
    }
}

/// The bytes of `value` on the wire. They read back as `value` itself, with
/// the cursor right after them, unless a simple string or an error in it
/// holds `\r\n`.
pub fn encode(value: &RespValue) -> (r: Vec<u8>)
    ensures
        r@ == spec_encode(value.view()),
        texts_clean(value.view()) ==> spec_parse_value(r@) == (
        Ok::<RespView, ErrorView>(value.view()),
        r@.len() as int,
        ),
{
    let mut out: Vec<u8> = Vec::new();
    encode_into(value, &mut out);
    assert(out@ == Seq::<u8>::empty() + spec_encode(value.view()));
    let _len = byte_len(&out);
    proof {
        let v = value.view();
        if texts_clean(v) {
            lemma_fits_well_formed(v);
            lemma_parse_encode(v, Seq::empty());
            assert(spec_encode(v) + Seq::<u8>::empty() =~= spec_encode(v));
        }
    }
    out
}

} // verus!
