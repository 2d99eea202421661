//! Decimal integers as they appear on the wire: the text form of `i64` and
//! `u64` values, both read (with the rules of Rust's `str::parse`) and written
//! (with the rules of `Display`).

use vstd::prelude::*;

verus! {

/// `'-'` as a byte.
pub const MINUS: u8 = 45;

/// `'+'` as a byte.
pub const PLUS: u8 = 43;

pub open spec fn is_digit(b: u8) -> bool {
    48 <= b <= 57
}

pub open spec fn all_digits(s: Seq<u8>) -> bool {
    forall|i: int| 0 <= i < s.len() ==> #[trigger] is_digit(s[i])
}

/// The number that a run of decimal digits denotes (most significant first).
pub open spec fn digits_value(s: Seq<u8>) -> nat
    decreases s.len(),
{
    if s.len() == 0 {
        0
    } else {
        digits_value(s.drop_last()) * 10 + (s.last() - 48) as nat
    }
}

/// The digits of the magnitude, unsigned, with no sign in front.
pub open spec fn unsigned_digits(s: Seq<u8>) -> Seq<u8> {
    if s.len() > 0 && s[0] == PLUS {
        s.drop_first()
    } else {
        s
    }
}

/// What `str::parse::<i64>` gives for the text `s`: an optional `+` or `-`
/// sign followed by at least one decimal digit and nothing else, whose value
/// fits in an `i64`.
pub open spec fn spec_parse_i64(s: Seq<u8>) -> Option<i64> {
    if s.len() == 0 || ((s[0] == PLUS || s[0] == MINUS) && s.len() == 1) {
        None
    } else if s[0] == MINUS {
        let d = s.drop_first();
        if all_digits(d) && digits_value(d) <= 0x8000_0000_0000_0000 {
            Some((-digits_value(d)) as i64)
        } else {
            None
        }
    } else {
        let d = unsigned_digits(s);
        if all_digits(d) && digits_value(d) <= i64::MAX {
            Some(digits_value(d) as i64)
        } else {
            None
        }
    }
}

/// What `str::parse::<u64>` gives for the text `s`: an optional `+` sign
/// followed by at least one decimal digit and nothing else, whose value fits in
/// a `u64`.
pub open spec fn spec_parse_u64(s: Seq<u8>) -> Option<u64> {
    if s.len() == 0 || ((s[0] == PLUS || s[0] == MINUS) && s.len() == 1) {
        None
    } else {
        let d = unsigned_digits(s);
        if all_digits(d) && digits_value(d) <= u64::MAX {
            Some(digits_value(d) as u64)
        } else {
            None
        }
    }
}

/// The shortest decimal digits of `n`, most significant first.
pub open spec fn dec_digits(n: nat) -> Seq<u8>
    decreases n,
{
    if n < 10 {
        seq![(n + 48) as u8]
    } else {
        dec_digits(n / 10).push((n % 10 + 48) as u8)
    }
}

/// The text that `Display` writes for the integer `n`.
pub open spec fn dec_text(n: int) -> Seq<u8> {
    if n < 0 {
        seq![MINUS] + dec_digits((-n) as nat)
    } else {
        dec_digits(n as nat)
    }
}

pub proof fn lemma_dec_digits(n: nat)
    ensures
        dec_digits(n).len() >= 1,
        all_digits(dec_digits(n)),
        digits_value(dec_digits(n)) == n,
    decreases n,
{
    if n >= 10 {
        lemma_dec_digits(n / 10);
        let s = dec_digits(n);
        assert(s.drop_last() == dec_digits(n / 10));
        assert((n / 10) * 10 + n % 10 == n) by (nonlinear_arith);
        assert(s.last() == (n % 10 + 48) as u8);
        assert((s.last() - 48) as nat == n % 10);
        assert(digits_value(s) == digits_value(s.drop_last()) * 10 + (s.last() - 48) as nat);
    } else {
        let s = dec_digits(n);
        assert(s.drop_last() =~= Seq::<u8>::empty());
        assert(s.last() == (n + 48) as u8);
        assert((s.last() - 48) as nat == n);
        assert(digits_value(s.drop_last()) == 0);
        assert(digits_value(s) == digits_value(s.drop_last()) * 10 + (s.last() - 48) as nat);
    }
}

/// The text of an integer is ASCII, holds no carriage return and no line
/// feed, and starts with a digit or a minus sign.
pub proof fn lemma_dec_text(n: int)
    ensures
        dec_text(n).len() >= 1,
        forall|i: int| 0 <= i < dec_text(n).len() ==> dec_text(n)[i] != 13u8 && dec_text(n)[i]
            != 10u8 && dec_text(n)[i] < 128,
        dec_text(n)[0] != PLUS,
        n >= 0 ==> all_digits(dec_text(n)) && digits_value(dec_text(n)) == n,
{
    if n < 0 {
        lemma_dec_digits((-n) as nat);
        let d = dec_digits((-n) as nat);
        assert forall|i: int| 0 <= i < dec_text(n).len() implies dec_text(n)[i] != 13u8
            && dec_text(n)[i] != 10u8 && dec_text(n)[i] < 128 by {
            if i > 0 {
                assert(dec_text(n)[i] == d[i - 1]);
                assert(is_digit(d[i - 1]));
            }
        }
    } else {
        lemma_dec_digits(n as nat);
        let d = dec_digits(n as nat);
        assert forall|i: int| 0 <= i < d.len() implies d[i] != 13u8 && d[i] != 10u8 && d[i]
            < 128 by {
            assert(is_digit(d[i]));
        }
        assert(is_digit(d[0]));
    }
}

/// Writing an `i64` and reading it back gives the same value.
pub proof fn lemma_parse_dec_text_i64(n: i64)
    ensures
        spec_parse_i64(dec_text(n as int)) == Some(n),
{
    lemma_dec_text(n as int);
    if n < 0 {
        let d = dec_digits((-n) as nat);
        lemma_dec_digits((-n) as nat);
        assert(dec_text(n as int).drop_first() == d);
    } else {
        let d = dec_digits(n as nat);
        lemma_dec_digits(n as nat);
        assert(is_digit(d[0]));
        assert(unsigned_digits(d) == d);
    }
}

/// Writing a length and reading it back gives the same value.
pub proof fn lemma_parse_dec_text_nat(n: nat)
    requires
        n <= i64::MAX,
    ensures
        spec_parse_i64(dec_text(n as int)) == Some(n as i64),
{
    lemma_parse_dec_text_i64(n as i64);
}

proof fn lemma_digits_value_prefix_step(s: Seq<u8>, i: int)
    requires
        0 <= i < s.len(),
    ensures
        digits_value(s.subrange(0, i + 1)) == digits_value(s.subrange(0, i)) * 10 + (s[i]
            - 48) as nat,
{
    assert(s.subrange(0, i + 1).drop_last() == s.subrange(0, i));
}

/// A prefix of a run of digits never denotes more than the whole run.
proof fn lemma_digits_value_prefix_le(s: Seq<u8>, i: int)
    requires
        0 <= i <= s.len(),
        all_digits(s),
    ensures
        digits_value(s.subrange(0, i)) <= digits_value(s),
    decreases s.len() - i,
{
    if i < s.len() {
        lemma_digits_value_prefix_step(s, i);
        assert(is_digit(s[i]));
        lemma_digits_value_prefix_le(s, i + 1);
    } else {
        assert(s.subrange(0, i) == s);
    }
}

/// Reads the decimal digits `buf[start..end]` as an unsigned number; `None`
/// when one of them is not a digit or the number exceeds `u64::MAX`.
fn digits_to_u64(buf: &[u8], start: usize, end: usize) -> (r: Option<u64>)
    requires
        start <= end <= buf@.len(),
    ensures
        ({
            let d = buf@.subrange(start as int, end as int);
            r == if all_digits(d) && digits_value(d) <= u64::MAX {
                Some(digits_value(d) as u64)
            } else {
                None::<u64>
            }
        }),
{
    let ghost d = buf@.subrange(start as int, end as int);
    let mut acc: u64 = 0;
    let mut i: usize = start;
    while i < end
        invariant
            start <= i <= end <= buf@.len(),
            d == buf@.subrange(start as int, end as int),
            all_digits(d.subrange(0, i - start)),
            acc == digits_value(d.subrange(0, i - start)),
        decreases end - i,
    {
        let b = buf[i];
        proof {
            lemma_digits_value_prefix_step(d, i - start);
            assert(d[i - start] == b);
        }
        if b < 48 || b > 57 {
            assert(!is_digit(d[i - start]));
            return None;
        }
        let next = match acc.checked_mul(10) {
            Some(m) => m.checked_add((b - 48) as u64),
            None => None,
        };
        match next {
            Some(v) => {
                acc = v;
            },
            None => {
                proof {
                    assert(all_digits(d.subrange(0, i + 1 - start)));
                    if all_digits(d) {
                        lemma_digits_value_prefix_le(d, i + 1 - start);
                    }
                }
                return None;
            },
        }
        i = i + 1;
    }
    assert(d.subrange(0, end - start) == d);
    Some(acc)
}

/// Reads `buf[start..end]` as `str::parse::<i64>` would.
pub fn parse_i64(buf: &[u8], start: usize, end: usize) -> (r: Option<i64>)
    requires
        start <= end <= buf@.len(),
    ensures
        r == spec_parse_i64(buf@.subrange(start as int, end as int)),
{
    let ghost s = buf@.subrange(start as int, end as int);
    if start == end {
        return None;
    }
    let first = buf[start];
    assert(s[0] == first);
    if (first == PLUS || first == MINUS) && end - start == 1 {
        return None;
    }
    if first == MINUS {
        assert(s.drop_first() == buf@.subrange(start + 1, end as int));
        match digits_to_u64(buf, start + 1, end) {
            Some(m) => {
                if m <= 0x8000_0000_0000_0000 {
                    if m == 0x8000_0000_0000_0000 {
                        Some(i64::MIN)
                    } else {
                        Some(-(m as i64))
                    }
                } else {
                    None
                }
            },
            None => None,
        }
    } else {
        let from = if first == PLUS {
            start + 1
        } else {
            start
        };
        assert(unsigned_digits(s) == buf@.subrange(from as int, end as int));
        match digits_to_u64(buf, from, end) {
            Some(m) => {
                if m <= i64::MAX as u64 {
                    Some(m as i64)
                } else {
                    None
                }
            },
            None => None,
        }
    }
}

/// Reads `buf[start..end]` as `str::parse::<u64>` would.
pub fn parse_u64(buf: &[u8], start: usize, end: usize) -> (r: Option<u64>)
    requires
        start <= end <= buf@.len(),
    ensures
        r == spec_parse_u64(buf@.subrange(start as int, end as int)),
{
    let ghost s = buf@.subrange(start as int, end as int);
    if start == end {
        return None;
    }
    let first = buf[start];
    assert(s[0] == first);
    if (first == PLUS || first == MINUS) && end - start == 1 {
        return None;
    }
    let from = if first == PLUS {
        start + 1
    } else {
        start
    };
    assert(unsigned_digits(s) == buf@.subrange(from as int, end as int));
    digits_to_u64(buf, from, end)
}

/// Appends the decimal digits of `n` to `out`.
pub fn push_digits(out: &mut Vec<u8>, n: u64)
    ensures
        final(out)@ == old(out)@ + dec_digits(n as nat),
    decreases n,
{
    if n < 10 {
        out.push((n as u8) + 48);
    } else {
        push_digits(out, n / 10);
        out.push(((n % 10) as u8) + 48);
    }
}

/// Appends the text that `Display` writes for `n` to `out`.
pub fn push_i64_text(out: &mut Vec<u8>, n: i64)
    ensures
        final(out)@ == old(out)@ + dec_text(n as int),
{
    if n < 0 {
        out.push(MINUS);
        let magnitude: u64 = ((-(n + 1)) as u64) + 1;
        push_digits(out, magnitude);
        assert(final(out)@ == old(out)@ + dec_text(n as int));
    } else {
        push_digits(out, n as u64);
    }
}

} // verus!
