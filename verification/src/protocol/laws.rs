//! What holds between writing and reading values: a written value reads back
//! as itself, whatever follows it; a value read depends on its own bytes only;
//! and every proper prefix of a value reads as `Incomplete` with the cursor
//! left where it was.

use vstd::prelude::*;
use vstd::utf8::*;

use super::ErrorView;
use super::RespView;
use super::encode::{line, spec_encode, spec_encode_all};
use super::wire::{
    find_crlf, lemma_find_crlf_at, lemma_find_crlf_bounds, lemma_find_crlf_none,
    lemma_parse_value_bounds, spec_elements, spec_header, spec_parse_value,
};
use crate::decimal::{dec_text, lemma_dec_text, lemma_parse_dec_text_i64, lemma_parse_dec_text_nat};
use crate::text::{CR, LF, all_ascii, lemma_ascii_utf8};

verus! {

/// `b` holds no `\r\n`.
pub open spec fn no_crlf(b: Seq<u8>) -> bool {
    forall|j: int| 0 <= j && j + 1 < b.len() ==> !(#[trigger] b[j] == CR && b[j + 1] == LF)
}

/// A value that the reader gives back as it was written: its simple strings
/// and errors hold no `\r\n`, and its lengths fit in an `i64` and a `usize`.
/// Outside these bounds the round trip fails: a text holding `\r\n` ends its
/// line early, and a length past `i64::MAX` is written out but read back as
/// an invalid integer. No vector holds such a value: `lemma_fits_well_formed`
/// shows that every value whose bytes fit in memory is within the bounds, and
/// `encode` promises the round trip on that ground.
pub open spec fn well_formed(v: RespView) -> bool
    decreases v,
{
    match v {
        RespView::SimpleString(s) => no_crlf(encode_utf8(s)),
        RespView::Error(s) => no_crlf(encode_utf8(s)),
        RespView::Integer(_) => true,
        RespView::BulkString(None) => true,
        RespView::BulkString(Some(d)) => d.len() <= i64::MAX && d.len() <= usize::MAX,
        RespView::Array(vs) => vs.len() <= i64::MAX && all_well_formed(vs),
    }
}

pub open spec fn all_well_formed(vs: Seq<RespView>) -> bool
    decreases vs,
{
    vs.len() == 0 || (well_formed(vs[0]) && all_well_formed(vs.subrange(1, vs.len() as int)))
}

/// No simple string or error, at any depth of `v`, holds `\r\n`.
pub open spec fn texts_clean(v: RespView) -> bool
    decreases v,
{
    match v {
        RespView::SimpleString(s) => no_crlf(encode_utf8(s)),
        RespView::Error(s) => no_crlf(encode_utf8(s)),
        RespView::Array(vs) => all_texts_clean(vs),
        _ => true,
    }
}

pub open spec fn all_texts_clean(vs: Seq<RespView>) -> bool
    decreases vs,
{
    vs.len() == 0 || (texts_clean(vs[0]) && all_texts_clean(vs.subrange(1, vs.len() as int)))
}

/// A value whose bytes fit in memory (in a vector, at most `isize::MAX` of
/// them) and whose texts hold no `\r\n` is one the reader gives back.
pub proof fn lemma_fits_well_formed(v: RespView)
    requires
        texts_clean(v),
        spec_encode(v).len() <= isize::MAX,
    ensures
        well_formed(v),
    decreases v,
{
    if let RespView::Array(vs) = v {
        lemma_all_fit_well_formed(vs);
    }
}

/// Values whose bytes, one after the other, fit in memory and whose texts
/// hold no `\r\n` are ones the reader gives back; there are no more of them
/// than bytes.
pub proof fn lemma_all_fit_well_formed(vs: Seq<RespView>)
    requires
        all_texts_clean(vs),
        spec_encode_all(vs).len() <= isize::MAX,
    ensures
        all_well_formed(vs),
        vs.len() <= spec_encode_all(vs).len(),
    decreases vs,
{
    if vs.len() > 0 {
        let tail = vs.subrange(1, vs.len() as int);
        lemma_encode_len(vs[0]);
        lemma_fits_well_formed(vs[0]);
        lemma_all_fit_well_formed(tail);
    }
}

proof fn lemma_dec_text_line(n: int)
    ensures
        no_crlf(dec_text(n)),
        all_ascii(dec_text(n)),
        valid_utf8(dec_text(n)),
{
    lemma_dec_text(n);
    lemma_ascii_utf8(dec_text(n));
}

/// Where the line of a written value ends, and what it holds.
proof fn lemma_line(tag: u8, b: Seq<u8>, rest: Seq<u8>)
    requires
        no_crlf(b),
    ensures
        ({
            let x = line(tag, b) + rest;
            &&& x.len() == b.len() + 3 + rest.len()
            &&& x[0] == tag
            &&& find_crlf(x, 1) == Some(1 + b.len() as int)
            &&& x.subrange(1, 1 + b.len() as int) == b
            &&& x.subrange(b.len() + 3int, x.len() as int) == rest
        }),
{
    let x = line(tag, b) + rest;
    assert forall|j: int| 1 <= j < 1 + b.len() implies !(#[trigger] x[j] == CR && x[j + 1]
        == LF) by {
        if j + 1 < 1 + b.len() {
            assert(x[j] == b[j - 1] && x[j + 1] == b[j]);
        } else {
            assert(x[j + 1] == CR);
        }
    }
    lemma_find_crlf_at(x, 1, 1 + b.len() as int);
    assert(x.subrange(1, 1 + b.len() as int) =~= b);
    assert(x.subrange(b.len() + 3int, x.len() as int) =~= rest);
}

/// A line cut short holds no `\r\n` after its tag.
proof fn lemma_line_cut(tag: u8, b: Seq<u8>, k: int)
    requires
        no_crlf(b),
        0 < k < b.len() + 3,
    ensures
        line(tag, b).subrange(0, k)[0] == tag,
        find_crlf(line(tag, b).subrange(0, k), 1) is None,
{
    let y = line(tag, b).subrange(0, k);
    assert forall|j: int| 1 <= j && j + 1 < y.len() implies !(#[trigger] y[j] == CR && y[j
        + 1] == LF) by {
        if j + 1 < 1 + b.len() {
            assert(y[j] == b[j - 1] && y[j + 1] == b[j]);
        } else {
            assert(y[j + 1] == CR);
        }
    }
    lemma_find_crlf_none(y, 1);
}

pub proof fn lemma_encode_len(v: RespView)
    ensures
        spec_encode(v).len() >= 3,
{
}

/// A written value reads back as itself, and the cursor ends right after
/// it, whatever bytes follow.
pub proof fn lemma_parse_encode(v: RespView, rest: Seq<u8>)
    requires
        well_formed(v),
    ensures
        spec_parse_value(spec_encode(v) + rest) == (
        Ok::<RespView, ErrorView>(v),
        spec_encode(v).len() as int,
        ),
    decreases v,
{
    let x = spec_encode(v) + rest;
    match v {
        RespView::SimpleString(s) => {
            lemma_line(43u8, encode_utf8(s), rest);
            encode_utf8_valid_utf8(s);
            encode_utf8_decode_utf8(s);
        },
        RespView::Error(s) => {
            lemma_line(45u8, encode_utf8(s), rest);
            encode_utf8_valid_utf8(s);
            encode_utf8_decode_utf8(s);
        },
        RespView::Integer(n) => {
            lemma_dec_text_line(n as int);
            lemma_line(58u8, dec_text(n as int), rest);
            lemma_parse_dec_text_i64(n);
        },
        RespView::BulkString(None) => {
            lemma_dec_text_line(-1);
            lemma_line(36u8, dec_text(-1), rest);
            lemma_parse_dec_text_i64(-1i64);
        },
        RespView::BulkString(Some(d)) => {
            let b = dec_text(d.len() as int);
            lemma_dec_text_line(d.len() as int);
            let payload = d + seq![CR, LF] + rest;
            lemma_line(36u8, b, payload);
            assert(x == line(36u8, b) + payload);
            lemma_parse_dec_text_nat(d.len());
            let i: int = 1 + b.len() as int;
            let e: int = i + 2 + d.len();
            assert(x[e] == CR && x[e + 1] == LF);
            assert(x.subrange(i + 2, e) =~= d);
        },
        RespView::Array(vs) => {
            let b = dec_text(vs.len() as int);
            lemma_dec_text_line(vs.len() as int);
            let payload = spec_encode_all(vs) + rest;
            lemma_line(42u8, b, payload);
            assert(x == line(42u8, b) + payload);
            lemma_parse_dec_text_nat(vs.len());
            lemma_parse_encode_all(vs, rest);
        },
    }
}

/// Written values, one after the other, read back as themselves.
pub proof fn lemma_parse_encode_all(vs: Seq<RespView>, rest: Seq<u8>)
    requires
        all_well_formed(vs),
    ensures
        spec_elements(spec_encode_all(vs) + rest, vs.len()) == (
        Ok::<Seq<RespView>, ErrorView>(vs),
        spec_encode_all(vs).len() as int,
        ),
    decreases vs,
{
    if vs.len() > 0 {
        let tail = vs.subrange(1, vs.len() as int);
        let t = spec_encode_all(vs) + rest;
        let e0 = spec_encode(vs[0]);
        lemma_parse_encode(vs[0], spec_encode_all(tail) + rest);
        assert(t == e0 + (spec_encode_all(tail) + rest));
        lemma_encode_len(vs[0]);
        assert(t.subrange(e0.len() as int, t.len() as int) =~= spec_encode_all(tail) + rest);
        lemma_parse_encode_all(tail, rest);
        assert(seq![vs[0]] + tail =~= vs);
        assert(tail.len() == (vs.len() - 1) as nat);
    } else {
        assert(vs =~= Seq::<RespView>::empty());
        assert(spec_encode_all(vs) + rest =~= rest);
    }
}

/// A written value cut short reads as `Incomplete`, and the cursor stays
/// where it was.
pub proof fn lemma_parse_cut(v: RespView, k: int)
    requires
        well_formed(v),
        0 <= k < spec_encode(v).len(),
    ensures
        spec_parse_value(spec_encode(v).subrange(0, k)) == (
        Err::<RespView, ErrorView>(ErrorView::Incomplete),
        0int,
        ),
    decreases v,
{
    if k > 0 {
        let y = spec_encode(v).subrange(0, k);
        match v {
            RespView::SimpleString(s) => {
                lemma_line_cut(43u8, encode_utf8(s), k);
            },
            RespView::Error(s) => {
                lemma_line_cut(45u8, encode_utf8(s), k);
            },
            RespView::Integer(n) => {
                lemma_dec_text_line(n as int);
                lemma_line_cut(58u8, dec_text(n as int), k);
            },
            RespView::BulkString(None) => {
                lemma_dec_text_line(-1);
                lemma_line_cut(36u8, dec_text(-1), k);
            },
            RespView::BulkString(Some(d)) => {
                let b = dec_text(d.len() as int);
                lemma_dec_text_line(d.len() as int);
                let h = b.len() + 3;
                if k < h {
                    assert(y == line(36u8, b).subrange(0, k));
                    lemma_line_cut(36u8, b, k);
                } else {
                    let payload = (d + seq![CR, LF]).subrange(0, k - h);
                    lemma_line(36u8, b, payload);
                    assert(y =~= line(36u8, b) + payload);
                    lemma_parse_dec_text_nat(d.len());
                    let e: int = h + d.len() as int;
                    if e < k {
                        assert(y[e] == CR);
                    }
                }
            },
            RespView::Array(vs) => {
                let b = dec_text(vs.len() as int);
                lemma_dec_text_line(vs.len() as int);
                let h = b.len() + 3;
                if k < h {
                    assert(y == line(42u8, b).subrange(0, k));
                    lemma_line_cut(42u8, b, k);
                } else {
                    let payload = spec_encode_all(vs).subrange(0, k - h);
                    lemma_line(42u8, b, payload);
                    assert(y =~= line(42u8, b) + payload);
                    lemma_parse_dec_text_nat(vs.len());
                    lemma_elements_cut(vs, k - h);
                }
            },
        }
    }
}

/// Written values cut short read as `Incomplete`.
pub proof fn lemma_elements_cut(vs: Seq<RespView>, k: int)
    requires
        all_well_formed(vs),
        0 <= k < spec_encode_all(vs).len(),
    ensures
        spec_elements(spec_encode_all(vs).subrange(0, k), vs.len()).0 == Err::<
            Seq<RespView>,
            ErrorView,
        >(ErrorView::Incomplete),
    decreases vs,
{
    let tail = vs.subrange(1, vs.len() as int);
    let e0 = spec_encode(vs[0]);
    let t = spec_encode_all(vs).subrange(0, k);
    if k < e0.len() {
        assert(t =~= e0.subrange(0, k));
        lemma_parse_cut(vs[0], k);
    } else {
        let more = spec_encode_all(tail).subrange(0, k - e0.len());
        assert(t =~= e0 + more);
        lemma_parse_encode(vs[0], more);
        lemma_encode_len(vs[0]);
        assert(t.subrange(e0.len() as int, t.len() as int) =~= more);
        lemma_elements_cut(tail, k - e0.len());
    }
}

/// What the line of a frame holds decides where it ends, in any buffer that
/// holds the same bytes up to and including its `\r\n`.
proof fn lemma_find_crlf_same(s: Seq<u8>, t: Seq<u8>, i: int)
    requires
        find_crlf(s, 1) == Some(i),
        i + 2 <= t.len(),
        t.subrange(0, i + 2) == s.subrange(0, i + 2),
    ensures
        find_crlf(t, 1) == Some(i),
        t.subrange(1, i) == s.subrange(1, i),
{
    lemma_find_crlf_bounds(s, 1);
    assert forall|j: int| 0 <= j < i + 2 implies #[trigger] t[j] == s[j] by {
        assert(t.subrange(0, i + 2)[j] == s.subrange(0, i + 2)[j]);
        assert(t.subrange(0, i + 2)[j] == t[j]);
        assert(s.subrange(0, i + 2)[j] == s[j]);
    }
    assert forall|j: int| 1 <= j < i implies !(#[trigger] t[j] == CR && t[j + 1] == LF) by {
        assert(t[j] == s[j] && t[j + 1] == s[j + 1]);
    }
    lemma_find_crlf_at(t, 1, i);
    assert(t.subrange(1, i) =~= s.subrange(1, i));
}

/// A value that was read depends only on its own bytes: any buffer that
/// starts with the same bytes reads the same value and ends in the same
/// place.
pub proof fn lemma_parse_frame(s: Seq<u8>, t: Seq<u8>)
    requires
        spec_parse_value(s).0 is Ok,
        spec_parse_value(s).1 <= t.len(),
        t.subrange(0, spec_parse_value(s).1) == s.subrange(0, spec_parse_value(s).1),
    ensures
        spec_parse_value(t) == spec_parse_value(s),
    decreases s.len(), 1int,
{
    let c = spec_parse_value(s).1;
    lemma_parse_value_bounds(s);
    assert forall|j: int| 0 <= j < c implies #[trigger] t[j] == s[j] by {
        assert(t.subrange(0, c)[j] == s.subrange(0, c)[j]);
    }
    lemma_find_crlf_bounds(s, 1);
    let i = find_crlf(s, 1)->Some_0;
    if s[0] == 36u8 {
        if let Ok(n) = spec_header(s, i) {
            if n >= 0 {
                assert(t.subrange(0, i + 2) =~= s.subrange(0, i + 2));
                lemma_find_crlf_same(s, t, i);
                let e = i + 2 + n;
                assert(t[e] == s[e] && t[e + 1] == s[e + 1]);
                assert(t.subrange(i + 2, e) =~= s.subrange(i + 2, e));
            } else {
                assert(t.subrange(0, i + 2) =~= s.subrange(0, i + 2));
                lemma_find_crlf_same(s, t, i);
            }
        }
    } else if s[0] == 42u8 {
        if let Ok(n) = spec_header(s, i) {
            if n >= 0 {
                let s2 = s.subrange(i + 2, s.len() as int);
                crate::protocol::wire::lemma_elements_bounds(s2, n as nat);
            }
        }
        assert(t.subrange(0, i + 2) =~= s.subrange(0, i + 2));
        lemma_find_crlf_same(s, t, i);
        if let Ok(n) = spec_header(s, i) {
            if n >= 0 {
                let s2 = s.subrange(i + 2, s.len() as int);
                let t2 = t.subrange(i + 2, t.len() as int);
                let c2 = spec_elements(s2, n as nat).1;
                assert(t2.subrange(0, c2) =~= s2.subrange(0, c2));
                lemma_elements_frame(s2, t2, n as nat);
            }
        }
    } else if s[0] == 43u8 || s[0] == 45u8 || s[0] == 58u8 {
        assert(t.subrange(0, i + 2) =~= s.subrange(0, i + 2));
        lemma_find_crlf_same(s, t, i);
    }
}

/// Values read one after the other depend only on their own bytes.
pub proof fn lemma_elements_frame(s: Seq<u8>, t: Seq<u8>, k: nat)
    requires
        spec_elements(s, k).0 is Ok,
        spec_elements(s, k).1 <= t.len(),
        t.subrange(0, spec_elements(s, k).1) == s.subrange(0, spec_elements(s, k).1),
    ensures
        spec_elements(t, k) == spec_elements(s, k),
    decreases s.len(), 2int,
{
    if k > 0 {
        let c = spec_elements(s, k).1;
        let c1 = spec_parse_value(s).1;
        lemma_parse_value_bounds(s);
        let s2 = s.subrange(c1, s.len() as int);
        let c2 = spec_elements(s2, (k - 1) as nat).1;
        crate::protocol::wire::lemma_elements_bounds(s2, (k - 1) as nat);
        assert(c == c1 + c2);
        assert forall|j: int| 0 <= j < c implies #[trigger] t[j] == s[j] by {
            assert(t.subrange(0, c)[j] == s.subrange(0, c)[j]);
        }
        assert(t.subrange(0, c1) =~= s.subrange(0, c1));
        lemma_parse_frame(s, t);
        let t2 = t.subrange(c1, t.len() as int);
        assert(t2.subrange(0, c2) =~= s2.subrange(0, c2));
        lemma_elements_frame(s2, t2, (k - 1) as nat);
    }
}


/// A read that asks for more bytes consumes nothing: whenever the reader
/// answers `Incomplete`, the cursor stays where it was.
pub proof fn lemma_incomplete_keeps_cursor(s: Seq<u8>)
    ensures
        spec_parse_value(s).0 == Err::<RespView, ErrorView>(ErrorView::Incomplete)
            ==> spec_parse_value(s).1 == 0,
{
}

/// No `\r\n` stands in a cut of `s` that ends before the `\r\n` at `i`.
proof fn lemma_cut_before_crlf(s: Seq<u8>, i: int, k: int)
    requires
        find_crlf(s, 1) == Some(i),
        0 < k < i + 2,
    ensures
        s.subrange(0, k)[0] == s[0],
        find_crlf(s.subrange(0, k), 1) is None,
{
    lemma_find_crlf_bounds(s, 1);
    let y = s.subrange(0, k);
    assert forall|j: int| 1 <= j && j + 1 < y.len() implies !(#[trigger] y[j] == CR && y[j
        + 1] == LF) by {
        assert(y[j] == s[j] && y[j + 1] == s[j + 1]);
    }
    lemma_find_crlf_none(y, 1);
}

/// Every proper prefix of a frame that reads is read as `Incomplete`, with
/// the cursor left where it was: a frame is never taken before its last
/// byte has come.
pub proof fn lemma_parse_prefix(s: Seq<u8>, k: int)
    requires
        spec_parse_value(s).0 is Ok,
        0 <= k < spec_parse_value(s).1,
    ensures
        spec_parse_value(s.subrange(0, k)) == (
        Err::<RespView, ErrorView>(ErrorView::Incomplete),
        0int,
        ),
    decreases s.len(), 1int,
{
    lemma_parse_value_bounds(s);
    let y = s.subrange(0, k);
    if k > 0 {
        lemma_find_crlf_bounds(s, 1);
        let i = find_crlf(s, 1)->Some_0;
        if k < i + 2 {
            lemma_cut_before_crlf(s, i, k);
        } else {
            assert(y.subrange(0, i + 2) =~= s.subrange(0, i + 2));
            lemma_find_crlf_same(s, y, i);
            assert(y[0] == s[0]);
            assert(spec_header(y, i) == spec_header(s, i));
            if s[0] == 36u8 {
                let n = spec_header(s, i)->Ok_0;
                let e: int = i + 2 + n;
                if k == e + 1 {
                    assert(y[e] == s[e]);
                }
            } else if s[0] == 42u8 {
                let n = spec_header(s, i)->Ok_0;
                let s2 = s.subrange(i + 2, s.len() as int);
                let y2 = y.subrange(i + 2, y.len() as int);
                assert(y2 =~= s2.subrange(0, k - i - 2));
                lemma_elements_prefix(s2, n as nat, k - i - 2);
            }
        }
    }
}

/// A proper prefix of values that read one after the other is read as
/// `Incomplete`.
pub proof fn lemma_elements_prefix(t: Seq<u8>, n: nat, k: int)
    requires
        spec_elements(t, n).0 is Ok,
        0 <= k < spec_elements(t, n).1,
    ensures
        spec_elements(t.subrange(0, k), n).0 == Err::<Seq<RespView>, ErrorView>(
            ErrorView::Incomplete,
        ),
    decreases t.len(), 2int,
{
    let c1 = spec_parse_value(t).1;
    lemma_parse_value_bounds(t);
    let t2 = t.subrange(c1, t.len() as int);
    crate::protocol::wire::lemma_elements_bounds(t2, (n - 1) as nat);
    assert(n > 0 && spec_parse_value(t).0 is Ok && 0 < c1 <= t.len());
    assert(spec_elements(t, n).1 == c1 + spec_elements(t2, (n - 1) as nat).1);
    let y = t.subrange(0, k);
    if k < c1 {
        lemma_parse_prefix(t, k);
    } else {
        assert(y.subrange(0, c1) =~= t.subrange(0, c1));
        lemma_parse_frame(t, y);
        assert(y.subrange(c1, y.len() as int) =~= t2.subrange(0, k - c1));
        lemma_elements_prefix(t2, (n - 1) as nat, k - c1);
    }
}

} // verus!
