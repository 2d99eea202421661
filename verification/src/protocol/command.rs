//! Turning a RESP value (an array of bulk strings) into a `Command`.
//!
//! Command names and `SET` flags are matched after upper-casing them, so
//! `ping` and `PING` name the same command.

use vstd::prelude::*;
use vstd::string::StringExecFns;
use vstd::utf8::*;

use super::{Command, CommandView, ErrorView, ProtocolError, RespValue, RespView, lemma_views_of_len};
use super::wire::format_error;
use crate::decimal::{parse_u64, spec_parse_u64};
use crate::text::{copy_range, string_from_utf8, string_of, to_uppercase, upper_text};

verus! {

/// Nanoseconds in a second (`EX`).
pub const NANOS_PER_SECOND: u128 = 1_000_000_000;

/// Nanoseconds in a millisecond (`PX`).
pub const NANOS_PER_MILLI: u128 = 1_000_000;

/// Every element is a non-null bulk string.
pub open spec fn all_bulk(parts: Seq<RespView>) -> bool {
    forall|i: int| 0 <= i < parts.len() ==> #[trigger] parts[i] matches RespView::BulkString(Some(_))
}

/// The bytes of each bulk string, in order.
pub open spec fn bulk_bytes(parts: Seq<RespView>) -> Seq<Seq<u8>> {
    Seq::new(parts.len(), |i: int| parts[i]->BulkString_0->Some_0)
}

/// The views of argument vectors.
pub open spec fn args_view(args: Seq<Vec<u8>>) -> Seq<Seq<u8>> {
    Seq::new(args.len(), |i: int| args[i]@)
}

/// The time to live that a `SET` flag (already upper-cased) and amount give.
pub open spec fn spec_ttl(flag: Seq<char>, amount: u64) -> Result<u128, ErrorView> {
    if flag == "EX"@ {
        Ok((amount * NANOS_PER_SECOND) as u128)
    } else if flag == "PX"@ {
        Ok((amount * NANOS_PER_MILLI) as u128)
    } else {
        Err(format_error("unknown SET flag: "@ + flag))
    }
}

/// A key, decoded from its bytes.
pub open spec fn spec_key(b: Seq<u8>) -> Result<Seq<char>, ErrorView> {
    if valid_utf8(b) {
        Ok(decode_utf8(b))
    } else {
        Err(format_error("invalid utf8"@))
    }
}

/// A command of one key argument.
pub open spec fn spec_one_key(
    name: Seq<char>,
    args: Seq<Seq<u8>>,
    make: spec_fn(Seq<char>) -> CommandView,
) -> Result<CommandView, ErrorView> {
    if args.len() != 1 {
        Err(ErrorView::WrongArgCount { command: name, expected: 1, got: args.len() as usize })
    } else {
        match spec_key(args[0]) {
            Ok(k) => Ok(make(k)),
            Err(e) => Err(e),
        }
    }
}

/// `SET key value [EX seconds | PX milliseconds]`.
pub open spec fn spec_set(args: Seq<Seq<u8>>) -> Result<CommandView, ErrorView> {
    if args.len() != 2 && args.len() != 4 {
        Err(ErrorView::WrongArgCount { command: "SET"@, expected: 2, got: args.len() as usize })
    } else {
        match spec_key(args[0]) {
            Err(e) => Err(e),
            Ok(key) => if args.len() == 4 {
                if !valid_utf8(args[2]) || !valid_utf8(args[3]) {
                    Err(format_error("invalid utf8"@))
                } else {
                    match spec_parse_u64(args[3]) {
                        None => Err(format_error("invalid ttl value"@)),
                        Some(amount) => match spec_ttl(
                            upper_text(decode_utf8(args[2])),
                            amount,
                        ) {
                            Ok(t) => Ok(CommandView::SetKey { key, value: args[1], ttl: Some(t) }),
                            Err(e) => Err(e),
                        },
                    }
                }
            } else {
                Ok(CommandView::SetKey { key, value: args[1], ttl: None })
            },
        }
    }
}

/// The command that an (upper-cased) name and its arguments give.
pub open spec fn spec_command_from_name(name: Seq<char>, args: Seq<Seq<u8>>) -> Result<
    CommandView,
    ErrorView,
> {
    if name == "PING"@ {
        Ok(CommandView::Ping)
    } else if name == "GET"@ {
        spec_one_key("GET"@, args, |k: Seq<char>| CommandView::Get { key: k })
    } else if name == "SET"@ {
        spec_set(args)
    } else if name == "DEL"@ {
        spec_one_key("DEL"@, args, |k: Seq<char>| CommandView::Del { key: k })
    } else if name == "EXISTS"@ {
        spec_one_key("EXISTS"@, args, |k: Seq<char>| CommandView::Exists { key: k })
    } else {
        Err(ErrorView::InvalidCommand(name))
    }
}

/// The command that a RESP value gives.
pub open spec fn spec_parse_command(v: RespView) -> Result<CommandView, ErrorView> {
    match v {
        RespView::Array(parts) => if !all_bulk(parts) {
            Err(format_error("expected bulk string"@))
        } else if parts.len() == 0 {
            Err(format_error("empty command attempt"@))
        } else {
            let bs = bulk_bytes(parts);
            if !valid_utf8(bs[0]) {
                Err(format_error("invalid utf8"@))
            } else {
                spec_command_from_name(
                    upper_text(decode_utf8(bs[0])),
                    bs.subrange(1, bs.len() as int),
                )
            }
        },
        _ => Err(format_error("expected array"@)),
    }
}

/// An array of non-null bulk strings holding the given bytes, as a client
/// sends a command.
pub open spec fn bulk_array(parts: Seq<Seq<u8>>) -> RespView {
    RespView::Array(Seq::new(parts.len(), |i: int| RespView::BulkString(Some(parts[i]))))
}

/// Two words that are text and read the same once upper-cased.
pub open spec fn same_word(a: Seq<u8>, b: Seq<u8>) -> bool {
    &&& valid_utf8(a)
    &&& valid_utf8(b)
    &&& upper_text(decode_utf8(a)) == upper_text(decode_utf8(b))
}

/// Command names and the `SET` flag are read without regard to case: two
/// commands whose names (and, with five parts, whose flags) read the same
/// once upper-cased, and whose other parts are equal, give the same result.
/// Keys, values and amounts are taken as they are.
pub proof fn lemma_parse_command_ignores_case(a: Seq<Seq<u8>>, b: Seq<Seq<u8>>)
    requires
        a.len() == b.len(),
        a.len() > 0,
        same_word(a[0], b[0]),
        a.len() == 5 ==> same_word(a[3], b[3]),
        forall|i: int| 0 < i < a.len() && !(a.len() == 5 && i == 3) ==> #[trigger] a[i] == b[i],
    ensures
        spec_parse_command(bulk_array(a)) == spec_parse_command(bulk_array(b)),
{
    let pa = bulk_array(a)->Array_0;
    let pb = bulk_array(b)->Array_0;
    assert(all_bulk(pa));
    assert(all_bulk(pb));
    assert(bulk_bytes(pa) =~= a);
    assert(bulk_bytes(pb) =~= b);
    let name = upper_text(decode_utf8(a[0]));
    let xa = a.subrange(1, a.len() as int);
    let xb = b.subrange(1, b.len() as int);
    if a.len() != 5 {
        assert(xa =~= xb);
    } else {
        assert(xa[0] == xb[0] && xa[1] == xb[1] && xa[3] == xb[3]);
        assert(spec_set(xa) == spec_set(xb));
        assert(spec_command_from_name(name, xa) == spec_command_from_name(name, xb));
    }
}

pub open spec fn command_result_view(r: Result<Command, ProtocolError>) -> Result<
    CommandView,
    ErrorView,
> {
    match r {
        Ok(c) => Ok(c.view()),
        Err(e) => Err(e.view()),
    }
}

/// The time to live, in nanoseconds, that the upper-cased `SET` flag and the
/// amount give: `EX` counts seconds and `PX` milliseconds; any other flag is an
/// error that names it.
pub fn ttl_from_flag(flag: &String, amount: u64) -> (r: Result<u128, ProtocolError>)
    ensures
        match r {
            Ok(t) => spec_ttl(flag@, amount) == Ok::<u128, ErrorView>(t),
            Err(e) => spec_ttl(flag@, amount) == Err::<u128, ErrorView>(e.view()),
        },
{
    if *flag == string_of("EX") {
        Ok(amount as u128 * NANOS_PER_SECOND)
    } else if *flag == string_of("PX") {
        Ok(amount as u128 * NANOS_PER_MILLI)
    } else {
        let mut msg = string_of("unknown SET flag: ");
        msg.append(flag.as_str());
        Err(ProtocolError::InvalidFormat(msg))
    }
}

/// Decodes a key.
fn key_from(bytes: &Vec<u8>) -> (r: Result<String, ProtocolError>)
    ensures
        match r {
            Ok(k) => spec_key(bytes@) == Ok::<Seq<char>, ErrorView>(k@),
            Err(e) => spec_key(bytes@) == Err::<Seq<char>, ErrorView>(e.view()),
        },
{
    let copy = copy_range(bytes.as_slice(), 0, bytes.len());
    assert(bytes@.subrange(0, bytes@.len() as int) == bytes@);
    match string_from_utf8(copy) {
        Some(k) => Ok(k),
        None => Err(ProtocolError::InvalidFormat(string_of("invalid utf8"))),
    }
}

/// The key of a command that takes one key and nothing else.
fn one_key(command: &str, args: &Vec<Vec<u8>>) -> (r: Result<String, ProtocolError>)
    ensures
        match r {
            Ok(k) => args@.len() == 1 && spec_key(args@[0]@) == Ok::<Seq<char>, ErrorView>(k@),
            Err(e) => if args@.len() != 1 {
                e.view() == ErrorView::WrongArgCount {
                    command: command@,
                    expected: 1,
                    got: args@.len() as usize,
                }
            } else {
                spec_key(args@[0]@) == Err::<Seq<char>, ErrorView>(e.view())
            },
        },
{
    if args.len() != 1 {
        return Err(
            ProtocolError::WrongArgCount { command: string_of(command), expected: 1, got: args.len() },
        );
    }
    key_from(&args[0])
}

fn copy_vec(bytes: &Vec<u8>) -> (r: Vec<u8>)
    ensures
        r@ == bytes@,
{
    let r = copy_range(bytes.as_slice(), 0, bytes.len());
    assert(bytes@.subrange(0, bytes@.len() as int) == bytes@);
    r
}

/// The command that the upper-cased command `name` and its arguments `args`
/// give.
pub fn command_from_name(name: &String, args: &Vec<Vec<u8>>) -> (r: Result<Command, ProtocolError>)
    ensures
        command_result_view(r) == spec_command_from_name(name@, args_view(args@)),
{
    proof {
        reveal_strlit("PING");
        reveal_strlit("GET");
        reveal_strlit("SET");
        reveal_strlit("DEL");
        reveal_strlit("EXISTS");
    }
    if *name == string_of("PING") {
        return Ok(Command::Ping);
    }
    if *name == string_of("GET") {
        return match one_key("GET", args) {
            Ok(key) => Ok(Command::Get { key }),
            Err(e) => Err(e),
        };
    }
    if *name == string_of("SET") {
        if args.len() != 2 && args.len() != 4 {
            return Err(
                ProtocolError::WrongArgCount { command: string_of("SET"), expected: 2, got: args.len() },
            );
        }
        let key = match key_from(&args[0]) {
            Err(e) => {
                return Err(e);
            },
            Ok(key) => key,
        };
        let ttl = if args.len() == 4 {
            let flag_text = string_from_utf8(copy_vec(&args[2]));
            let amount_text = string_from_utf8(copy_vec(&args[3]));
            let flag = match flag_text {
                None => {
                    return Err(ProtocolError::InvalidFormat(string_of("invalid utf8")));
                },
                Some(f) => to_uppercase(f.as_str()),
            };
            if amount_text.is_none() {
                return Err(ProtocolError::InvalidFormat(string_of("invalid utf8")));
            }
            let amount = match parse_u64(args[3].as_slice(), 0, args[3].len()) {
                None => {
                    proof {
                        assert(args[3]@.subrange(0, args[3]@.len() as int) == args[3]@);
                    }
                    return Err(ProtocolError::InvalidFormat(string_of("invalid ttl value")));
                },
                Some(n) => n,
            };
            proof {
                assert(args[3]@.subrange(0, args[3]@.len() as int) == args[3]@);
            }
            match ttl_from_flag(&flag, amount) {
                Ok(t) => Some(t),
                Err(e) => {
                    return Err(e);
                },
            }
        } else {
            None
        };
        let value = copy_vec(&args[1]);
        return Ok(Command::SetKey { key, value, ttl });
    }
    if *name == string_of("DEL") {
        return match one_key("DEL", args) {
            Ok(key) => Ok(Command::Del { key }),
            Err(e) => Err(e),
        };
    }
    if *name == string_of("EXISTS") {
        return match one_key("EXISTS", args) {
            Ok(key) => Ok(Command::Exists { key }),
            Err(e) => Err(e),
        };
    }
    Err(ProtocolError::InvalidCommand(name.clone()))
}

/// Reads a command from a RESP value: an array of bulk strings whose first
/// element names the command, matched without regard to case.
pub fn parse_command(value: RespValue) -> (r: Result<Command, ProtocolError>)
    ensures
        command_result_view(r) == spec_parse_command(value.view()),
{
    let ghost vv = value.view();
    let parts = match value {
        RespValue::Array(parts) => parts,
        _ => {
            return Err(ProtocolError::InvalidFormat(string_of("expected array")));
        },
    };
    let ghost pv = super::views_of(parts@);
    proof {
        lemma_views_of_len(parts@);
    }
    let mut byte_parts: Vec<Vec<u8>> = Vec::new();
    let mut i: usize = 0;
    #[verifier::loop_isolation(false)]
    while i < parts.len()
        invariant
            0 <= i <= parts@.len(),
            vv == RespView::Array(pv),
            pv == super::views_of(parts@),
            pv.len() == parts@.len(),
            forall|j: int| 0 <= j < parts@.len() ==> #[trigger] pv[j] == parts@[j].view(),
            byte_parts@.len() == i,
            forall|j: int| 0 <= j < i ==> #[trigger] pv[j] matches RespView::BulkString(Some(_)),
            forall|j: int|
                0 <= j < i ==> (#[trigger] byte_parts@[j])@ == pv[j]->BulkString_0->Some_0,
        decreases parts@.len() - i,
    {
        match &parts[i] {
            RespValue::BulkString(Some(b)) => {
                byte_parts.push(copy_vec(b));
            },
            _ => {
                assert(!(pv[i as int] matches RespView::BulkString(Some(_))));
                return Err(ProtocolError::InvalidFormat(string_of("expected bulk string")));
            },
        }
        i = i + 1;
    }
    if byte_parts.len() == 0 {
        return Err(ProtocolError::InvalidFormat(string_of("empty command attempt")));
    }
    let ghost bs = bulk_bytes(pv);
    assert(byte_parts@[0]@ == bs[0]);
    let name = match string_from_utf8(copy_vec(&byte_parts[0])) {
        None => {
            return Err(ProtocolError::InvalidFormat(string_of("invalid utf8")));
        },
        Some(n) => n,
    };
    let upper = to_uppercase(name.as_str());
    let mut args: Vec<Vec<u8>> = Vec::new();
    let mut j: usize = 1;
    while j < byte_parts.len()
        invariant
            1 <= j <= byte_parts@.len(),
            vv == RespView::Array(pv),
            byte_parts@.len() == pv.len(),
            bs == bulk_bytes(pv),
            forall|k: int| 0 <= k < byte_parts@.len() ==> (#[trigger] byte_parts@[k])@ == bs[k],
            args_view(args@) == bs.subrange(1, j as int),
        decreases byte_parts@.len() - j,
    {
        let ghost before = args@;
        let item = copy_vec(&byte_parts[j]);
        assert(item@ == bs[j as int]);
        args.push(item);
        assert(args@ == before.push(item));
        assert(args_view(before).len() == before.len());
        assert(before.len() == j - 1);
        assert forall|k: int| 0 <= k < args@.len() implies #[trigger] args_view(args@)[k]
            == bs.subrange(1, j + 1)[k] by {
            if k < before.len() {
                assert(args@[k] == before[k]);
                assert(args_view(before)[k] == bs.subrange(1, j as int)[k]);
            } else {
                assert(args@[k] == item);
            }
        }
        assert(args_view(args@) =~= bs.subrange(1, j + 1));
        j = j + 1;
    }
    command_from_name(&upper, &args)
}

} // verus!
