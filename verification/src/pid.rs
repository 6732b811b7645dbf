//! Reading a PID from the command line.

use vstd::prelude::*;
use vstd::string::*;

verus! {

/// What is wrong with the digits of a PID.
#[derive(Debug, Clone, Copy, PartialEq, Eq, Structural)]
pub enum PidFault {
    /// There are no digits.
    Empty,
    /// A character is not a hexadecimal digit.
    InvalidDigit,
    /// The number does not fit 16 bits.
    Overflow,
}

/// A PID that cannot be read.
#[derive(Debug)]
pub struct PidError {
    /// The text behind its hexadecimal prefixes.
    pub text: String,
    pub fault: PidFault,
}

/// `text` without the prefixes `0` and `x` that it starts with, be it several
/// times.
pub open spec fn without_prefix(text: Seq<char>, x: char) -> Seq<char>
    decreases text.len(),
{
    if text.len() >= 2 && text[0] == '0' && text[1] == x {
        without_prefix(text.skip(2), x)
    } else {
        text
    }
}

/// The text in which digits are looked for.
pub open spec fn digits_of(text: Seq<char>) -> Seq<char> {
    without_prefix(without_prefix(text, 'x'), 'X')
}

/// The value of a hexadecimal digit.
pub open spec fn hex_digit(c: char) -> Option<int> {
    let u = c as int;
    if 0x30 <= u <= 0x39 {
        Some(u - 0x30)
    } else if 0x41 <= u <= 0x46 {
        Some(u - 0x41 + 10)
    } else if 0x61 <= u <= 0x66 {
        Some(u - 0x61 + 10)
    } else {
        None
    }
}

/// The number that `value` becomes when `digits` are appended to it. The first
/// fault counts.
pub open spec fn hex_number(value: int, digits: Seq<char>) -> Result<u16, PidFault>
    decreases digits.len(),
{
    if digits.len() == 0 {
        Ok(value as u16)
    } else {
        match hex_digit(digits[0]) {
            None => Err(PidFault::InvalidDigit),
            Some(d) => if value * 16 + d > 0xFFFF {
                Err(PidFault::Overflow)
            } else {
                hex_number(value * 16 + d, digits.skip(1))
            },
        }
    }
}

/// The number in `digits`: at least one digit, behind at most one plus sign.
pub open spec fn signed_hex_number(digits: Seq<char>) -> Result<u16, PidFault> {
    if digits.len() == 0 {
        Err(PidFault::Empty)
    } else if digits[0] == '+' && digits.len() > 1 {
        hex_number(0, digits.skip(1))
    } else {
        hex_number(0, digits)
    }
}

/// The part of `s` behind the prefixes `0` and `x`, from character `from` on.
fn skip_prefix(s: &str, from: usize, len: usize, x: char) -> (at: usize)
    requires
        len == s@.len(),
        from <= len,
    ensures
        from <= at <= len,
        s@.skip(at as int) == without_prefix(s@.skip(from as int), x),
{
    let mut at: usize = from;
    while len - at >= 2
        invariant
            len == s@.len(),
            from <= at <= len,
            without_prefix(s@.skip(at as int), x) == without_prefix(s@.skip(from as int), x),
        ensures
            from <= at <= len,
            s@.skip(at as int) == without_prefix(s@.skip(from as int), x),
        decreases len - at,
    {
        if s.get_char(at) != '0' || s.get_char(at + 1) != x {
            break;
        }
        assert(s@.skip(at as int).skip(2) =~= s@.skip(at + 2));
        at += 2;
    }
    at
}

/// Reads a PID in hexadecimal, with or without `0x`.
pub fn parse_pid(s: &str) -> (res: Result<u16, PidError>)
    ensures
        match res {
            Ok(pid) => signed_hex_number(digits_of(s@)) == Ok::<u16, PidFault>(pid),
            Err(e) => {
                &&& signed_hex_number(digits_of(s@)) == Err::<u16, PidFault>(e.fault)
                &&& e.text@ == digits_of(s@)
            },
        },
{
    let len: usize = s.unicode_len();
    assert(s@.skip(0) =~= s@);
    let lower: usize = skip_prefix(s, 0, len, 'x');
    let from: usize = skip_prefix(s, lower, len, 'X');
    match read_hex(s, from, len) {
        Ok(pid) => Ok(pid),
        Err(fault) => {
            let text: &str = s.substring_char(from, len);
            assert(text@ =~= s@.skip(from as int));
            Err(PidError { text: text.to_owned(), fault })
        },
    }
}

/// Reads the digits of `s` from character `from` on.
fn read_hex(s: &str, from: usize, len: usize) -> (res: Result<u16, PidFault>)
    requires
        len == s@.len(),
        from <= len,
    ensures
        res == signed_hex_number(s@.skip(from as int)),
{
    if from == len {
        return Err(PidFault::Empty);
    }
    let mut at: usize = from;
    if s.get_char(from) == '+' && len - from > 1 {
        assert(s@.skip(from as int).skip(1) =~= s@.skip(from + 1));
        at = from + 1;
    }
    let mut value: u32 = 0;
    while at < len
        invariant
            len == s@.len(),
            from <= at <= len,
            value <= 0xFFFF,
            hex_number(value as int, s@.skip(at as int)) == signed_hex_number(
                s@.skip(from as int),
            ),
        decreases len - at,
    {
        let u: u32 = s.get_char(at) as u32;
        let digit: u32 = if 0x30 <= u && u <= 0x39 {
            u - 0x30
        } else if 0x41 <= u && u <= 0x46 {
            u - 0x41 + 10
        } else if 0x61 <= u && u <= 0x66 {
            u - 0x61 + 10
        } else {
            return Err(PidFault::InvalidDigit);
        };
        if value * 16 + digit > 0xFFFF {
            return Err(PidFault::Overflow);
        }
        assert(s@.skip(at as int).skip(1) =~= s@.skip(at + 1));
        value = value * 16 + digit;
        at += 1;
    }
    Ok(value as u16)
}

/// The prefix `0x` makes no difference.
pub proof fn law_prefix_is_optional(text: Seq<char>)
    ensures
        digits_of(seq!['0', 'x'] + text) == digits_of(text),
{
    let prefixed = seq!['0', 'x'] + text;
    assert(prefixed.skip(2) =~= text);
}

/// What the digits are worth: the characters from `0` to `9`, and from `a` to `f`
/// in either case; no other.
pub proof fn law_hex_digits(c: char)
    ensures
        '0' <= c <= '9' ==> hex_digit(c) == Some(c as int - '0' as int),
        'a' <= c <= 'f' ==> hex_digit(c) == Some(c as int - 'a' as int + 10),
        'A' <= c <= 'F' ==> hex_digit(c) == Some(c as int - 'A' as int + 10),
        !('0' <= c <= '9') && !('a' <= c <= 'f') && !('A' <= c <= 'F') ==> hex_digit(c) is None,
{
}

/// One more digit makes sixteen times the number and the digit, as long as that
/// fits 16 bits; a fault stays the fault.
pub proof fn law_hex_number_grows_by_digits(value: u16, digits: Seq<char>, c: char)
    ensures
        hex_number(value as int, Seq::empty()) == Ok::<u16, PidFault>(value),
        hex_number(value as int, digits.push(c)) == match hex_number(value as int, digits) {
            Err(e) => Err::<u16, PidFault>(e),
            Ok(x) => match hex_digit(c) {
                None => Err::<u16, PidFault>(PidFault::InvalidDigit),
                Some(d) => if x * 16 + d <= 0xFFFF {
                    Ok::<u16, PidFault>((x * 16 + d) as u16)
                } else {
                    Err::<u16, PidFault>(PidFault::Overflow)
                },
            },
        },
    decreases digits.len(),
{
    let all = digits.push(c);
    if digits.len() == 0 {
        assert(all.skip(1) =~= Seq::empty());
        assert(all[0] == c);
        assert(digits =~= Seq::empty());
        assert(hex_number(value as int, digits) == Ok::<u16, PidFault>(value));
        if let Some(d) = hex_digit(c) {
            if value * 16 + d <= 0xFFFF {
                assert(hex_number(value * 16 + d, all.skip(1)) == Ok::<u16, PidFault>(
                    (value * 16 + d) as u16,
                ));
            }
        }
    } else {
        assert(all[0] == digits[0]);
        assert(all.skip(1) =~= digits.skip(1).push(c));
        if let Some(d) = hex_digit(digits[0]) {
            if value * 16 + d <= 0xFFFF {
                law_hex_number_grows_by_digits((value * 16 + d) as u16, digits.skip(1), c);
            }
        }
    }
}

/// A number is its digits from zero on, behind a plus sign or not; without any
/// digit or sign there is nothing to read, and a sign alone is no digit.
pub proof fn law_sign_is_optional(digits: Seq<char>)
    ensures
        signed_hex_number(Seq::empty()) == Err::<u16, PidFault>(PidFault::Empty),
        digits.len() > 0 ==> signed_hex_number(seq!['+'] + digits) == hex_number(0, digits),
        digits.len() > 0 && digits[0] != '+' ==> signed_hex_number(digits) == hex_number(
            0,
            digits,
        ),
        signed_hex_number(seq!['+']) == Err::<u16, PidFault>(PidFault::InvalidDigit),
{
    assert((seq!['+'] + digits).skip(1) =~= digits);
}

/// Only prefixes are taken off: `0x` any number of times, then `0X` any number of
/// times, and nothing else.
pub proof fn law_only_prefixes_are_skipped(text: Seq<char>)
    ensures
        digits_of(seq!['0', 'x'] + text) == digits_of(text),
        !(text.len() >= 2 && text[0] == '0' && text[1] == 'X') ==> digits_of(
            seq!['0', 'X'] + text,
        ) == text,
        text.len() >= 2 && text[0] == '0' && text[1] == 'X' ==> digits_of(seq!['0', 'X'] + text)
            == digits_of(text),
        !(text.len() >= 2 && text[0] == '0' && (text[1] == 'x' || text[1] == 'X')) ==> digits_of(
            text,
        ) == text,
{
    law_prefix_is_optional(text);
    let upper = seq!['0', 'X'] + text;
    assert(upper.skip(2) =~= text);
    assert(without_prefix(upper, 'x') == upper);
    assert(upper[0] == '0' && upper[1] == 'X');
    assert(digits_of(upper) == without_prefix(text, 'X'));
    assert(without_prefix(text, 'x') == text || text[1] == 'x');
}

} // verus!
