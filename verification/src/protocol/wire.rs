//! Reading RESP values from raw bytes.
//!
//! The model reads from the bytes that start at the cursor (`suffix`) and
//! says, besides the value or error, where the cursor stands afterwards,
//! counted from where it stood: past the value on success, and back where it
//! was when more bytes are needed (`Incomplete`). After any other error the
//! caller drops the buffer, so where the cursor stands then is incidental: it
//! is one byte past the type tag after an error in a header line, and back at
//! the start after a bad terminator or a bad array element; the model records
//! this only so that the reader is described exactly.

use vstd::prelude::*;
use vstd::utf8::*;

use super::{ErrorView, ProtocolError, RespValue, RespView, result_view, views_of, lemma_views_of_push};
use crate::decimal::{parse_i64, spec_parse_i64};
use crate::text::{CR, LF, copy_range, string_from_utf8, string_of};

verus! {

/// The bytes from `pos` to the end of `buf` (none when `pos` is past it).
pub open spec fn suffix(buf: Seq<u8>, pos: int) -> Seq<u8> {
    if 0 <= pos <= buf.len() {
        buf.subrange(pos, buf.len() as int)
    } else {
        Seq::empty()
    }
}

/// The first `i >= from` at which `s` holds `\r\n`.
pub open spec fn find_crlf(s: Seq<u8>, from: int) -> Option<int>
    decreases s.len() - from,
{
    if from + 1 >= s.len() {
        None
    } else if s[from] == CR && s[from + 1] == LF {
        Some(from)
    } else {
        find_crlf(s, from + 1)
    }
}

pub proof fn lemma_find_crlf_bounds(s: Seq<u8>, from: int)
    ensures
        find_crlf(s, from) matches Some(i) ==> from <= i && i + 1 < s.len() && s[i] == CR && s[i
            + 1] == LF,
        find_crlf(s, from) matches Some(i) ==> forall|j: int|
            from <= j < i ==> !(#[trigger] s[j] == CR && s[j + 1] == LF),
        find_crlf(s, from) is None ==> forall|j: int|
            from <= j && j + 1 < s.len() ==> !(#[trigger] s[j] == CR && s[j + 1] == LF),
    decreases s.len() - from,
{
    if from + 1 < s.len() && !(s[from] == CR && s[from + 1] == LF) {
        lemma_find_crlf_bounds(s, from + 1);
    }
}

/// Where `\r\n` first stands when no earlier pair does.
pub proof fn lemma_find_crlf_at(s: Seq<u8>, from: int, i: int)
    requires
        from <= i,
        i + 1 < s.len(),
        s[i] == CR,
        s[i + 1] == LF,
        forall|j: int| from <= j < i ==> !(#[trigger] s[j] == CR && s[j + 1] == LF),
    ensures
        find_crlf(s, from) == Some(i),
    decreases i - from,
{
    if from < i {
        lemma_find_crlf_at(s, from + 1, i);
    }
}

/// No `\r\n` after `from`.
pub proof fn lemma_find_crlf_none(s: Seq<u8>, from: int)
    requires
        forall|j: int| from <= j && j + 1 < s.len() ==> !(#[trigger] s[j] == CR && s[j + 1] == LF),
    ensures
        find_crlf(s, from) is None,
    decreases s.len() - from,
{
    if from + 1 < s.len() {
        lemma_find_crlf_none(s, from + 1);
    }
}

pub open spec fn format_error(msg: Seq<char>) -> ErrorView {
    ErrorView::InvalidFormat(msg)
}

/// The number in the header line `s[1..i]` of an integer, a bulk string or an
/// array.
pub open spec fn spec_header(s: Seq<u8>, i: int) -> Result<i64, ErrorView> {
    let t = s.subrange(1, i);
    if !valid_utf8(t) {
        Err(format_error("invalid utf8"@))
    } else {
        match spec_parse_i64(t) {
            Some(n) => Ok(n),
            None => Err(format_error("invalid integer"@)),
        }
    }
}

/// `+text\r\n` (or `-text\r\n` when `is_error`).
pub open spec fn spec_text_line(s: Seq<u8>, is_error: bool) -> (Result<RespView, ErrorView>, int) {
    match find_crlf(s, 1) {
        None => (Err(ErrorView::Incomplete), 0),
        Some(i) => {
            let t = s.subrange(1, i);
            if valid_utf8(t) {
                let c = decode_utf8(t);
                (
                    Ok(
                        if is_error {
                            RespView::Error(c)
                        } else {
                            RespView::SimpleString(c)
                        },
                    ),
                    i + 2,
                )
            } else {
                (Err(format_error("invalid utf8"@)), 1)
            }
        },
    }
}

/// `:number\r\n`
pub open spec fn spec_integer(s: Seq<u8>) -> (Result<RespView, ErrorView>, int) {
    match find_crlf(s, 1) {
        None => (Err(ErrorView::Incomplete), 0),
        Some(i) => match spec_header(s, i) {
            Err(e) => (Err(e), 1),
            Ok(n) => (Ok(RespView::Integer(n)), i + 2),
        },
    }
}

/// `$len\r\nbytes\r\n`, or `$-1\r\n`.
pub open spec fn spec_bulk_string(s: Seq<u8>) -> (Result<RespView, ErrorView>, int) {
    match find_crlf(s, 1) {
        None => (Err(ErrorView::Incomplete), 0),
        Some(i) => match spec_header(s, i) {
            Err(e) => (Err(e), 1),
            Ok(n) => if n == -1 {
                (Ok(RespView::BulkString(None)), i + 2)
            } else if n < 0 || n > usize::MAX {
                (Err(format_error("Failed conversion"@)), 1)
            } else {
                let e = i + 2 + n;
                if e >= s.len() {
                    (Err(ErrorView::Incomplete), 0)
                } else if s[e] != CR {
                    (Err(format_error("missing bulk string terminator"@)), 0)
                } else if e + 1 >= s.len() {
                    (Err(ErrorView::Incomplete), 0)
                } else if s[e + 1] != LF {
                    (Err(format_error("missing bulk string terminator"@)), 0)
                } else {
                    (Ok(RespView::BulkString(Some(s.subrange(i + 2, e)))), e + 2)
                }
            },
        },
    }
}

/// `*count\r\n` followed by `count` values, or `*-1\r\n` (read as the null
/// bulk string).
pub open spec fn spec_array(s: Seq<u8>) -> (Result<RespView, ErrorView>, int)
    decreases s.len(), 0int,
{
    match find_crlf(s, 1) {
        None => (Err(ErrorView::Incomplete), 0),
        Some(i) => match spec_header(s, i) {
            Err(e) => (Err(e), 1),
            Ok(n) => if n == -1 {
                (Ok(RespView::BulkString(None)), i + 2)
            } else if n < -1 {
                (Err(format_error("negative array length"@)), 1)
            } else {
                proof {
                    lemma_find_crlf_bounds(s, 1);
                }
                let r = spec_elements(s.subrange(i + 2, s.len() as int), n as nat);
                match r.0 {
                    Ok(vs) => (Ok(RespView::Array(vs)), i + 2 + r.1),
                    Err(e) => (Err(e), 0),
                }
            },
        },
    }
}

/// `k` values one after the other, and how many bytes they take.
pub open spec fn spec_elements(t: Seq<u8>, k: nat) -> (Result<Seq<RespView>, ErrorView>, int)
    decreases t.len(), 2int,
{
    if k == 0 {
        (Ok(Seq::empty()), 0)
    } else {
        let r = spec_parse_value(t);
        match r.0 {
            Err(e) => (Err(e), 0),
            Ok(v) => if 0 < r.1 <= t.len() {
                let rest = spec_elements(t.subrange(r.1, t.len() as int), (k - 1) as nat);
                match rest.0 {
                    Ok(vs) => (Ok(seq![v] + vs), r.1 + rest.1),
                    Err(e) => (Err(e), 0),
                }
            } else {
                (Err(ErrorView::Incomplete), 0)
            },
        }
    }
}

/// One RESP value read from the start of `s`, and where the cursor stands
/// afterwards, relative to the start.
pub open spec fn spec_parse_value(s: Seq<u8>) -> (Result<RespView, ErrorView>, int)
    decreases s.len(), 1int,
{
    if s.len() == 0 {
        (Err(ErrorView::Incomplete), 0)
    } else if s[0] == 43u8 {
        spec_text_line(s, false)
    } else if s[0] == 45u8 {
        spec_text_line(s, true)
    } else if s[0] == 58u8 {
        spec_integer(s)
    } else if s[0] == 36u8 {
        spec_bulk_string(s)
    } else if s[0] == 42u8 {
        spec_array(s)
    } else {
        (Err(ErrorView::InvalidType(s[0])), 0)
    }
}

/// A value that was read takes at least one byte and no more than there are.
pub proof fn lemma_parse_value_bounds(s: Seq<u8>)
    ensures
        spec_parse_value(s).0 is Ok ==> 0 < spec_parse_value(s).1 <= s.len(),
        spec_parse_value(s).0 is Err ==> 0 <= spec_parse_value(s).1 <= 1,
    decreases s.len(), 1int,
{
    if s.len() > 0 {
        lemma_find_crlf_bounds(s, 1);
        if s[0] == 42u8 {
            match find_crlf(s, 1) {
                Some(i) => match spec_header(s, i) {
                    Ok(n) => if n >= 0 {
                        lemma_elements_bounds(s.subrange(i + 2, s.len() as int), n as nat);
                    },
                    Err(_) => {},
                },
                None => {},
            }
        }
    }
}

pub proof fn lemma_elements_bounds(t: Seq<u8>, k: nat)
    ensures
        spec_elements(t, k).0 is Ok ==> 0 <= spec_elements(t, k).1 <= t.len(),
        spec_elements(t, k).0 matches Ok(vs) ==> vs.len() == k,
    decreases t.len(), 2int,
{
    if k > 0 {
        let r = spec_parse_value(t);
        lemma_parse_value_bounds(t);
        if r.0 is Ok && 0 < r.1 <= t.len() {
            lemma_elements_bounds(t.subrange(r.1, t.len() as int), (k - 1) as nat);
        }
    }
}

/// Looks for the `\r\n` that ends the line starting at `start`.
fn find_line_end(buf: &[u8], start: usize) -> (r: Option<usize>)
    requires
        start < buf@.len(),
    ensures
        find_crlf(suffix(buf@, start as int), 1) is None <==> r is None,
        r matches Some(e) ==> start < e && e + 1 < buf@.len() && find_crlf(
            suffix(buf@, start as int),
            1,
        ) == Some(e - start),
{
    let n = buf.len();
    let ghost s = suffix(buf@, start as int);
    let mut i: usize = start + 1;
    while i < n
        invariant
            n == buf@.len(),
            start < i <= n,
            s == suffix(buf@, start as int),
            s.len() == n - start,
            find_crlf(s, 1) == find_crlf(s, i - start),
        decreases n - i,
    {
        if i + 1 < n && buf[i] == CR && buf[i + 1] == LF {
            assert(s[i - start] == buf@[i as int]);
            assert(s[i - start + 1] == buf@[i + 1]);
            return Some(i);
        }
        proof {
            if i + 1 < n {
                assert(s[i - start] == buf@[i as int]);
                assert(s[i - start + 1] == buf@[i + 1]);
            }
        }
        i = i + 1;
    }
    None
}

/// The number on the header line `buf[start + 1..end]`.
fn header_number(buf: &[u8], start: usize, end: usize) -> (r: Result<i64, ProtocolError>)
    requires
        start < end <= buf@.len(),
    ensures
        match r {
            Ok(n) => spec_header(buf@.subrange(start as int, buf@.len() as int), end - start)
                == Ok::<i64, ErrorView>(n),
            Err(e) => spec_header(buf@.subrange(start as int, buf@.len() as int), end - start)
                == Err::<i64, ErrorView>(e.view()),
        },
{
    let ghost s = buf@.subrange(start as int, buf@.len() as int);
    let text = copy_range(buf, start + 1, end);
    assert(s.subrange(1, end - start) == buf@.subrange(start + 1, end as int));
    match string_from_utf8(text) {
        None => Err(ProtocolError::InvalidFormat(string_of("invalid utf8"))),
        Some(_) => match parse_i64(buf, start + 1, end) {
            Some(n) => Ok(n),
            None => Err(ProtocolError::InvalidFormat(string_of("invalid integer"))),
        },
    }
}

/// The state of the read at the cursor, as the model states it.
pub open spec fn read_matches(
    buf: Seq<u8>,
    old_pos: int,
    new_pos: int,
    r: Result<RespValue, ProtocolError>,
    o: (Result<RespView, ErrorView>, int),
) -> bool {
    &&& result_view(r) == o.0
    &&& new_pos == old_pos + o.1
}

/// `+text\r\n` or `-text\r\n` at the cursor.
fn parse_text_line(buf: &[u8], pos: &mut usize, is_error: bool) -> (r: Result<
    RespValue,
    ProtocolError,
>)
    requires
        *old(pos) < buf@.len(),
    ensures
        read_matches(
            buf@,
            *old(pos) as int,
            *final(pos) as int,
            r,
            spec_text_line(suffix(buf@, *old(pos) as int), is_error),
        ),
{
    let n = buf.len();
    let start = *pos;
    let ghost s = suffix(buf@, start as int);
    match find_line_end(buf, start) {
        None => Err(ProtocolError::Incomplete),
        Some(i) => {
            proof {
                lemma_find_crlf_bounds(s, 1);
            }
            let text = copy_range(buf, start + 1, i);
            assert(s.subrange(1, i - start) == buf@.subrange(start + 1, i as int));
            match string_from_utf8(text) {
                None => {
                    *pos = start + 1;
                    Err(ProtocolError::InvalidFormat(string_of("invalid utf8")))
                },
                Some(t) => {
                    *pos = i + 2;
                    if is_error {
                        Ok(RespValue::Error(t))
                    } else {
                        Ok(RespValue::SimpleString(t))
                    }
                },
            }
        },
    }
}

/// Reads a simple string (`+text\r\n`) at the cursor.
fn parse_simple_string(buf: &[u8], pos: &mut usize) -> (r: Result<RespValue, ProtocolError>)
    requires
        *old(pos) < buf@.len(),
    ensures
        read_matches(
            buf@,
            *old(pos) as int,
            *final(pos) as int,
            r,
            spec_text_line(suffix(buf@, *old(pos) as int), false),
        ),
{
    parse_text_line(buf, pos, false)
}

/// Reads an error (`-text\r\n`) at the cursor.
fn parse_error(buf: &[u8], pos: &mut usize) -> (r: Result<RespValue, ProtocolError>)
    requires
        *old(pos) < buf@.len(),
    ensures
        read_matches(
            buf@,
            *old(pos) as int,
            *final(pos) as int,
            r,
            spec_text_line(suffix(buf@, *old(pos) as int), true),
        ),
{
    parse_text_line(buf, pos, true)
}

/// Reads an integer (`:number\r\n`) at the cursor.
fn parse_integer(buf: &[u8], pos: &mut usize) -> (r: Result<RespValue, ProtocolError>)
    requires
        *old(pos) < buf@.len(),
    ensures
        read_matches(
            buf@,
            *old(pos) as int,
            *final(pos) as int,
            r,
            spec_integer(suffix(buf@, *old(pos) as int)),
        ),
{
    let n = buf.len();
    let start = *pos;
    match find_line_end(buf, start) {
        None => Err(ProtocolError::Incomplete),
        Some(i) => {
            proof {
                lemma_find_crlf_bounds(suffix(buf@, start as int), 1);
            }
            match header_number(buf, start, i) {
                Err(e) => {
                    *pos = start + 1;
                    Err(e)
                },
                Ok(n) => {
                    *pos = i + 2;
                    Ok(RespValue::Integer(n))
                },
            }
        },
    }
}

/// Reads a bulk string (`$len\r\nbytes\r\n`, or `$-1\r\n`) at the cursor.
fn parse_bulk_string(buf: &[u8], pos: &mut usize) -> (r: Result<RespValue, ProtocolError>)
    requires
        *old(pos) < buf@.len(),
    ensures
        read_matches(
            buf@,
            *old(pos) as int,
            *final(pos) as int,
            r,
            spec_bulk_string(suffix(buf@, *old(pos) as int)),
        ),
{
    let n = buf.len();
    let start = *pos;
    let ghost s = suffix(buf@, start as int);
    match find_line_end(buf, start) {
        None => Err(ProtocolError::Incomplete),
        Some(i) => {
            proof {
                lemma_find_crlf_bounds(s, 1);
            }
            match header_number(buf, start, i) {
                Err(e) => {
                    *pos = start + 1;
                    Err(e)
                },
                Ok(n) => {
                    if n == -1 {
                        *pos = i + 2;
                        return Ok(RespValue::BulkString(None));
                    }
                    if n < 0 || n as u64 > usize::MAX as u64 {
                        *pos = start + 1;
                        return Err(ProtocolError::InvalidFormat(string_of("Failed conversion")));
                    }
                    let len = n as usize;
                    let data_start = i + 2;
                    if len >= buf.len() - data_start {
                        return Err(ProtocolError::Incomplete);
                    }
                    let e = data_start + len;
                    assert(s[e - start] == buf@[e as int]);
                    if buf[e] != CR {
                        return Err(
                            ProtocolError::InvalidFormat(string_of("missing bulk string terminator")),
                        );
                    }
                    if e + 1 >= buf.len() {
                        return Err(ProtocolError::Incomplete);
                    }
                    assert(s[e + 1 - start] == buf@[e + 1]);
                    if buf[e + 1] != LF {
                        return Err(
                            ProtocolError::InvalidFormat(string_of("missing bulk string terminator")),
                        );
                    }
                    let data = copy_range(buf, data_start, e);
                    assert(s.subrange(i + 2 - start, e - start) == buf@.subrange(
                        data_start as int,
                        e as int,
                    ));
                    *pos = e + 2;
                    Ok(RespValue::BulkString(Some(data)))
                },
            }
        },
    }
}

/// How far reading an array's elements has come: the values read so far,
/// the bytes they took, and the read of the rest.
pub open spec fn elements_so_far(
    done: Seq<RespView>,
    used: int,
    rest: (Result<Seq<RespView>, ErrorView>, int),
) -> (Result<Seq<RespView>, ErrorView>, int) {
    match rest.0 {
        Ok(vs) => (Ok(done + vs), used + rest.1),
        Err(e) => (Err(e), 0),
    }
}

/// Reads an array (`*count\r\n` and its elements, or `*-1\r\n`) at the
/// cursor.
fn parse_array(buf: &[u8], pos: &mut usize) -> (r: Result<RespValue, ProtocolError>)
    requires
        *old(pos) < buf@.len(),
    ensures
        read_matches(
            buf@,
            *old(pos) as int,
            *final(pos) as int,
            r,
            spec_array(suffix(buf@, *old(pos) as int)),
        ),
    decreases buf@.len() - *old(pos), 0int,
{
    let n = buf.len();
    let start = *pos;
    let ghost s = suffix(buf@, start as int);
    match find_line_end(buf, start) {
        None => Err(ProtocolError::Incomplete),
        Some(i) => {
            proof {
                lemma_find_crlf_bounds(s, 1);
            }
            match header_number(buf, start, i) {
                Err(e) => {
                    *pos = start + 1;
                    Err(e)
                },
                Ok(n) => {
                    if n == -1 {
                        *pos = i + 2;
                        return Ok(RespValue::BulkString(None));
                    }
                    if n < -1 {
                        *pos = start + 1;
                        return Err(ProtocolError::InvalidFormat(string_of("negative array length")));
                    }
                    let count = n as u64;
                    let data_start = i + 2;
                    *pos = data_start;
                    let ghost t0 = s.subrange(i + 2 - start, s.len() as int);
                    assert(t0 == suffix(buf@, data_start as int));
                    let mut elements: Vec<RespValue> = Vec::new();
                    let mut idx: u64 = 0;
                    #[verifier::loop_isolation(false)]
                    while idx < count
                        invariant
                            start == *old(pos),
                            start < data_start <= *pos <= buf@.len(),
                            idx <= count,
                            count == n,
                            t0 == suffix(buf@, data_start as int),
                            spec_elements(t0, count as nat) == elements_so_far(
                                views_of(elements@),
                                *pos - data_start,
                                spec_elements(suffix(buf@, *pos as int), (count - idx) as nat),
                            ),
                        decreases count - idx,
                    {
                        let ghost here = *pos;
                        let ghost tp = suffix(buf@, here as int);
                        let item = parse_value(buf, pos);
                        proof {
                            lemma_parse_value_bounds(tp);
                        }
                        match item {
                            Ok(v) => {
                                let ghost vv = v.view();
                                let ghost before = elements@;
                                elements.push(v);
                                proof {
                                    lemma_views_of_push(before, v);
                                    let c = spec_parse_value(tp).1;
                                    assert(tp.subrange(c, tp.len() as int) =~= suffix(
                                        buf@,
                                        *pos as int,
                                    ));
                                    let rest = spec_elements(
                                        suffix(buf@, *pos as int),
                                        (count - idx - 1) as nat,
                                    );
                                    if rest.0 is Ok {
                                        assert(views_of(before) + (seq![vv] + rest.0->Ok_0)
                                            =~= views_of(before).push(vv) + rest.0->Ok_0);
                                    }
                                }
                            },
                            Err(e) => {
                                assert(spec_elements(tp, (count - idx) as nat).0 == Err::<
                                    Seq<RespView>,
                                    ErrorView,
                                >(e.view()));
                                assert(spec_elements(t0, count as nat).0 == Err::<
                                    Seq<RespView>,
                                    ErrorView,
                                >(e.view()));
                                *pos = start;
                                return Err(e);
                            },
                        }
                        idx = idx + 1;
                    }
                    proof {
                        assert(views_of(elements@) + Seq::<RespView>::empty() == views_of(
                            elements@,
                        ));
                    }
                    Ok(RespValue::Array(elements))
                },
            }
        },
    }
}

/// Reads one RESP value at the cursor `pos` of `buf`.
///
/// On success the cursor moves past the value. When the bytes end before
/// the value does, the result is `Incomplete` and the cursor stays where it
/// was, so that the caller can read more bytes and try again.
pub fn parse_value(buf: &[u8], pos: &mut usize) -> (r: Result<RespValue, ProtocolError>)
    ensures
        read_matches(
            buf@,
            *old(pos) as int,
            *final(pos) as int,
            r,
            spec_parse_value(suffix(buf@, *old(pos) as int)),
        ),
        r matches Err(ProtocolError::Incomplete) ==> *final(pos) == *old(pos),
    decreases buf@.len() - *old(pos), 1int,
{
    proof {
        crate::protocol::laws::lemma_incomplete_keeps_cursor(suffix(buf@, *old(pos) as int));
    }
    if *pos >= buf.len() {
        return Err(ProtocolError::Incomplete);
    }
    let type_byte = buf[*pos];
    assert(suffix(buf@, *pos as int)[0] == type_byte);
    if type_byte == 43u8 {
        parse_simple_string(buf, pos)
    } else if type_byte == 45u8 {
        parse_error(buf, pos)
    } else if type_byte == 58u8 {
        parse_integer(buf, pos)
    } else if type_byte == 36u8 {
        parse_bulk_string(buf, pos)
    } else if type_byte == 42u8 {
        parse_array(buf, pos)
    } else {
        Err(ProtocolError::InvalidType(type_byte))
    }
}

} // verus!
