use vstd::prelude::*;

verus! {

/// Why a text is not an unsigned 64-bit integer, as `u64`'s `FromStr` tells it.
#[derive(Clone, Copy, PartialEq, Eq, Structural, Debug)]
pub enum ParseIntFailure {
    Empty,
    InvalidDigit,
    PosOverflow,
}

/// Whether `c` is an ASCII decimal digit.
pub open spec fn is_digit(c: char) -> bool {
    '0' <= c && c <= '9'
}

/// The value of an ASCII decimal digit.
pub open spec fn digit_value(c: char) -> int {
    c as int - '0' as int
}

/// Reads the decimal digits of `s` from left to right onto `acc`: the first character that
/// is not a digit fails the read, and so does a value that would pass `u64::MAX`.
pub open spec fn scan_digits(s: Seq<char>, acc: int) -> Result<int, ParseIntFailure>
    decreases s.len(),
{
    if s.len() == 0 {
        Ok(acc)
    } else if !is_digit(s[0]) {
        Err(ParseIntFailure::InvalidDigit)
    } else if acc * 10 + digit_value(s[0]) > u64::MAX {
        Err(ParseIntFailure::PosOverflow)
    } else {
        scan_digits(s.drop_first(), acc * 10 + digit_value(s[0]))
    }
}

/// The unsigned 64-bit integer that a text spells in decimal, with an optional leading `+`.
pub open spec fn decimal_u64(s: Seq<char>) -> Result<int, ParseIntFailure> {
    if s.len() == 0 {
        Err(ParseIntFailure::Empty)
    } else if (s[0] == '+' || s[0] == '-') && s.len() == 1 {
        Err(ParseIntFailure::InvalidDigit)
    } else if s[0] == '+' {
        scan_digits(s.drop_first(), 0)
    } else {
        scan_digits(s, 0)
    }
}

/// Reads `text` as `u64`'s `FromStr` does: an optional `+`, then decimal digits only.
pub fn parse_u64(text: &str) -> (r: Result<u64, ParseIntFailure>)
    ensures
        match r {
            Ok(v) => decimal_u64(text@) == Ok::<int, ParseIntFailure>(v as int),
            Err(e) => decimal_u64(text@) == Err::<int, ParseIntFailure>(e),
        },
{
    let n = text.unicode_len();
    if n == 0 {
        return Err(ParseIntFailure::Empty);
    }
    let first = text.get_char(0);
    if (first == '+' || first == '-') && n == 1 {
        return Err(ParseIntFailure::InvalidDigit);
    }
    let start: usize = if first == '+' { 1 } else { 0 };
    let ghost digits = if first == '+' { text@.drop_first() } else { text@ };
    assert(digits =~= text@.subrange(start as int, n as int));
    assert(decimal_u64(text@) == scan_digits(digits, 0));
    let mut acc: u64 = 0;
    let mut i: usize = start;
    while i < n
        invariant
            start <= i <= n,
            n == text@.len(),
            scan_digits(digits, 0) == scan_digits(text@.subrange(i as int, n as int), acc as int),
            decimal_u64(text@) == scan_digits(digits, 0),
        decreases n - i,
    {
        let c = text.get_char(i);
        let ghost rest = text@.subrange(i as int, n as int);
        assert(rest[0] == c);
        if !('0' <= c && c <= '9') {
            return Err(ParseIntFailure::InvalidDigit);
        }
        let d: u32 = (c as u32) - ('0' as u32);
        let next: u128 = (acc as u128) * 10 + (d as u128);
        if next > u64::MAX as u128 {
            return Err(ParseIntFailure::PosOverflow);
        }
        assert(rest.drop_first() =~= text@.subrange(i + 1, n as int));
        acc = next as u64;
        i = i + 1;
    }
    assert(text@.subrange(i as int, n as int) =~= Seq::<char>::empty());
    Ok(acc)
}

impl ParseIntFailure {
    /// The text `u64`'s parse error displays for this failure.
    pub fn message(&self) -> (m: &'static str)
        ensures
            m@ == failure_text(*self),
    {
        match self {
            ParseIntFailure::Empty => "cannot parse integer from empty string",
            ParseIntFailure::InvalidDigit => "invalid digit found in string",
            ParseIntFailure::PosOverflow => "number too large to fit in target type",
        }
    }
}

/// The text `u64`'s parse error displays for a failure.
pub open spec fn failure_text(f: ParseIntFailure) -> Seq<char> {
    match f {
        ParseIntFailure::Empty => "cannot parse integer from empty string"@,
        ParseIntFailure::InvalidDigit => "invalid digit found in string"@,
        ParseIntFailure::PosOverflow => "number too large to fit in target type"@,
    }
}

} // verus!
