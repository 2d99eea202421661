//! The RESP wire protocol: the values that travel in both directions, the
//! errors of reading them, and the commands that clients send.
//!
//! Reading runs in two layers: `wire::parse_value` turns raw bytes into a
//! `RespValue`, and `command::parse_command` turns a `RespValue` (an array of
//! bulk strings) into a `Command`. `encode::encode` writes a `RespValue` back
//! to bytes.

pub mod command;
pub mod encode;
pub mod laws;
pub mod wire;

pub use command::parse_command;
pub use encode::encode;
pub use wire::parse_value;

use vstd::prelude::*;

use vstd::string::StringExecFns;

use crate::decimal::{dec_digits, push_digits};
use crate::text::{all_ascii, ascii_chars, ascii_string, string_of};

verus! {

/// Why bytes or a value could not be read.
#[derive(Debug, PartialEq)]
pub enum ProtocolError {
    /// The buffer ends before the value does: read more bytes and try again.
    Incomplete,
    /// The first byte names no RESP type.
    InvalidType(u8),
    /// The bytes break the format; the text says how.
    InvalidFormat(String),
    /// The command name is not one that the server knows.
    InvalidCommand(String),
    /// A known command came with the wrong number of arguments.
    WrongArgCount { command: String, expected: usize, got: usize },
}

/// The mathematical model of a `ProtocolError`.
pub enum ErrorView {
    Incomplete,
    InvalidType(u8),
    InvalidFormat(Seq<char>),
    InvalidCommand(Seq<char>),
    WrongArgCount { command: Seq<char>, expected: usize, got: usize },
}

impl ProtocolError {
    pub open spec fn view(&self) -> ErrorView {
        match self {
            ProtocolError::Incomplete => ErrorView::Incomplete,
            ProtocolError::InvalidType(b) => ErrorView::InvalidType(*b),
            ProtocolError::InvalidFormat(s) => ErrorView::InvalidFormat(s@),
            ProtocolError::InvalidCommand(s) => ErrorView::InvalidCommand(s@),
            ProtocolError::WrongArgCount { command, expected, got } => ErrorView::WrongArgCount {
                command: command@,
                expected: *expected,
                got: *got,
            },
        }
    }
}

/// One RESP value.
#[derive(Debug, PartialEq)]
pub enum RespValue {
    /// `+text\r\n`
    SimpleString(String),
    /// `$len\r\nbytes\r\n`, or the null bulk string `$-1\r\n` as `None`.
    BulkString(Option<Vec<u8>>),
    /// `:number\r\n`
    Integer(i64),
    /// `*count\r\n` followed by the elements.
    Array(Vec<RespValue>),
    /// `-text\r\n`
    Error(String),
}

/// The mathematical model of a `RespValue`.
pub enum RespView {
    SimpleString(Seq<char>),
    BulkString(Option<Seq<u8>>),
    Integer(i64),
    Array(Seq<RespView>),
    Error(Seq<char>),
}

impl RespValue {
    pub open spec fn view(&self) -> RespView
        decreases self,
    {
        match self {
            RespValue::SimpleString(s) => RespView::SimpleString(s@),
            RespValue::BulkString(b) => RespView::BulkString(
                match b {
                    Some(v) => Some(v@),
                    None => None,
                },
            ),
            RespValue::Integer(n) => RespView::Integer(*n),
            RespValue::Array(items) => RespView::Array(views_of(items@)),
            RespValue::Error(s) => RespView::Error(s@),
        }
    }
}

/// The models of a sequence of values, in order.
pub open spec fn views_of(items: Seq<RespValue>) -> Seq<RespView>
    decreases items,
{
    if items.len() == 0 {
        Seq::empty()
    } else {
        views_of(items.subrange(0, items.len() - 1)).push(items[items.len() - 1].view())
    }
}

pub proof fn lemma_views_of_push(items: Seq<RespValue>, x: RespValue)
    ensures
        views_of(items.push(x)) == views_of(items).push(x.view()),
        views_of(items.push(x)).len() == items.len() + 1,
{
    assert(items.push(x).subrange(0, items.len() as int) == items);
    lemma_views_of_len(items);
}

pub proof fn lemma_views_of_len(items: Seq<RespValue>)
    ensures
        views_of(items).len() == items.len(),
        forall|i: int| 0 <= i < items.len() ==> #[trigger] views_of(items)[i] == items[i].view(),
    decreases items.len(),
{
    if items.len() > 0 {
        let front = items.subrange(0, items.len() - 1);
        lemma_views_of_len(front);
        assert forall|i: int| 0 <= i < items.len() implies #[trigger] views_of(items)[i]
            == items[i].view() by {
            if i < items.len() - 1 {
                assert(front[i] == items[i]);
            }
        }
    }
}

/// The model of a read: the value, or the error.
pub open spec fn result_view(r: Result<RespValue, ProtocolError>) -> Result<RespView, ErrorView> {
    match r {
        Ok(v) => Ok(v.view()),
        Err(e) => Err(e.view()),
    }
}

/// The lower-case hexadecimal digit for `d < 16`.
pub open spec fn hex_digit(d: u8) -> u8 {
    if d < 10 {
        (d + 48) as u8
    } else {
        (d + 87) as u8
    }
}

/// The text of an error, as its `Display` writes it.
pub open spec fn error_message(e: ErrorView) -> Seq<char> {
    match e {
        ErrorView::Incomplete => "incomplete data, need more bytes"@,
        ErrorView::InvalidType(b) => "invalid RESP type byte: 0x"@ + ascii_chars(
            seq![hex_digit(b / 16), hex_digit(b % 16)],
        ),
        ErrorView::InvalidFormat(s) => "invalid format: "@ + s,
        ErrorView::InvalidCommand(s) => "invalid command: "@ + s,
        ErrorView::WrongArgCount { command, expected, got } => "wrong arg count for "@ + command
            + ": expected "@ + ascii_chars(dec_digits(expected as nat)) + ", got "@
            + ascii_chars(dec_digits(got as nat)),
    }
}

proof fn lemma_digits_ascii(n: nat)
    ensures
        all_ascii(dec_digits(n)),
{
    crate::decimal::lemma_dec_digits(n);
    assert forall|i: int| 0 <= i < dec_digits(n).len() implies #[trigger] dec_digits(n)[i]
        < 128 by {
        assert(crate::decimal::is_digit(dec_digits(n)[i]));
    }
}

fn digits_string(n: usize) -> (r: String)
    ensures
        r@ == ascii_chars(dec_digits(n as nat)),
{
    let mut v: Vec<u8> = Vec::new();
    push_digits(&mut v, n as u64);
    proof {
        assert(v@ == dec_digits(n as nat));
        lemma_digits_ascii(n as nat);
    }
    ascii_string(v)
}

fn hex_char(d: u8) -> (r: u8)
    requires
        d < 16,
    ensures
        r == hex_digit(d),
        r < 128,
{
    if d < 10 {
        d + 48
    } else {
        d + 87
    }
}

impl ProtocolError {
    /// The text of the error, as the server sends it to the client.
    pub fn message(&self) -> (r: String)
        ensures
            r@ == error_message(self.view()),
    {
        match self {
            ProtocolError::Incomplete => string_of("incomplete data, need more bytes"),
            ProtocolError::InvalidType(b) => {
                let mut r = string_of("invalid RESP type byte: 0x");
                let mut v: Vec<u8> = Vec::new();
                v.push(hex_char(*b / 16));
                v.push(hex_char(*b % 16));
                assert(v@ == seq![hex_digit(*b / 16), hex_digit(*b % 16)]);
                let h = ascii_string(v);
                r.append(h.as_str());
                r
            },
            ProtocolError::InvalidFormat(s) => {
                let mut r = string_of("invalid format: ");
                r.append(s.as_str());
                r
            },
            ProtocolError::InvalidCommand(s) => {
                let mut r = string_of("invalid command: ");
                r.append(s.as_str());
                r
            },
            ProtocolError::WrongArgCount { command, expected, got } => {
                let mut r = string_of("wrong arg count for ");
                r.append(command.as_str());
                let a = string_of(": expected ");
                r.append(a.as_str());
                let e = digits_string(*expected);
                r.append(e.as_str());
                let b = string_of(", got ");
                r.append(b.as_str());
                let g = digits_string(*got);
                r.append(g.as_str());
                r
            },
        }
    }
}

/// A command that the server executes.
#[derive(Debug, PartialEq)]
pub enum Command {
    /// Health check: answered with `PONG`.
    Ping,
    Get { key: String },
    /// `ttl` is the time to live in nanoseconds (`EX` seconds or `PX`
    /// milliseconds on the wire), `None` for a key that does not expire.
    SetKey { key: String, value: Vec<u8>, ttl: Option<u128> },
    Del { key: String },
    Exists { key: String },
}

/// The mathematical model of a `Command`.
pub enum CommandView {
    Ping,
    Get { key: Seq<char> },
    SetKey { key: Seq<char>, value: Seq<u8>, ttl: Option<u128> },
    Del { key: Seq<char> },
    Exists { key: Seq<char> },
}

impl Command {
    pub open spec fn view(&self) -> CommandView {
        match self {
            Command::Ping => CommandView::Ping,
            Command::Get { key } => CommandView::Get { key: key@ },
            Command::SetKey { key, value, ttl } => CommandView::SetKey {
                key: key@,
                value: value@,
                ttl: *ttl,
            },
            Command::Del { key } => CommandView::Del { key: key@ },
            Command::Exists { key } => CommandView::Exists { key: key@ },
        }
    }
}

} // verus!
