//! Unsigned decimal numbers and booleans as they are written in a
//! definition.

use vstd::prelude::*;
use crate::text::{same_text, to_chars};

verus! {

/// Why a text is no number of the wanted width.
#[derive(Clone, Copy, Debug, PartialEq, Eq, Structural)]
pub enum IntError {
    /// The text is empty.
    Empty,
    /// A character that is no decimal digit stands in the text, or the
    /// text is a sign alone.
    InvalidDigit,
    /// The digits give a number above the largest of the width.
    Overflow,
}

/// Whether `c` is one of `0` to `9`.
pub open spec fn is_digit(c: char) -> bool {
    0x30 <= c as u32 <= 0x39
}

/// The number that the digit `c` stands for.
pub open spec fn digit_value(c: char) -> nat {
    if is_digit(c) {
        (c as u32 - 0x30) as nat
    } else {
        0
    }
}

/// The number that the decimal digits `s` give, the first digit counting
/// most.
pub open spec fn decimal(s: Seq<char>) -> nat
    decreases s.len(),
{
    if s.len() == 0 {
        0
    } else {
        decimal(s.drop_last()) * 10 + digit_value(s.last())
    }
}

/// How many digits `s` starts with.
pub open spec fn digits_len(s: Seq<char>) -> nat
    decreases s.len(),
{
    if s.len() == 0 || !is_digit(s[0]) {
        0
    } else {
        1 + digits_len(s.skip(1))
    }
}

/// Whether `s` holds digits only.
pub open spec fn all_digits(s: Seq<char>) -> bool {
    forall|i: int| 0 <= i < s.len() ==> is_digit(#[trigger] s[i])
}

/// `s` without the `+` that it may start with.
pub open spec fn unsigned_part(s: Seq<char>) -> Seq<char> {
    if s.len() > 0 && s[0] == '+' {
        s.skip(1)
    } else {
        s
    }
}

/// What `s` is as an unsigned number of at most `max`: an optional `+`, then
/// digits only, at least one. Of the two things that can be wrong behind the
/// sign, the one that comes first from the left is named: the digits that
/// `s` starts with may already exceed `max`, or a character that is no digit
/// may follow them.
pub open spec fn parse_uint(s: Seq<char>, max: nat) -> Result<nat, IntError> {
    if s.len() == 0 {
        Err(IntError::Empty)
    } else {
        let body = unsigned_part(s);
        let run = digits_len(body) as int;
        if body.len() == 0 {
            Err(IntError::InvalidDigit)
        } else if decimal(body.take(run)) > max {
            Err(IntError::Overflow)
        } else if run < body.len() {
            Err(IntError::InvalidDigit)
        } else {
            Ok(decimal(body))
        }
    }
}

/// What `s` is as a boolean: `true`, `false` or neither.
pub open spec fn parse_flag(s: Seq<char>) -> Option<bool> {
    if s == "true"@ {
        Some(true)
    } else if s == "false"@ {
        Some(false)
    } else {
        None
    }
}

/// `digits_len` is where the first character that is no digit stands.
pub proof fn lemma_digits_len(s: Seq<char>, k: int)
    requires
        0 <= k <= s.len(),
        forall|j: int| 0 <= j < k ==> is_digit(s[j]),
        k == s.len() || !is_digit(s[k]),
    ensures
        digits_len(s) == k,
    decreases k,
{
    if k > 0 {
        lemma_digits_len(s.skip(1), k - 1);
    }
}

/// A longer start of a text gives no smaller number.
pub proof fn lemma_decimal_grows(s: Seq<char>, i: int, j: int)
    requires
        0 <= i <= j <= s.len(),
    ensures
        decimal(s.take(i)) <= decimal(s.take(j)),
    decreases j - i,
{
    if i < j {
        lemma_decimal_grows(s, i, j - 1);
        assert(s.take(j).drop_last() == s.take(j - 1));
    }
}

/// A number is read exactly when the text is digits behind an optional `+`
/// and they stay within `max`.
pub proof fn lemma_parse_uint_ok(s: Seq<char>, max: nat)
    ensures
        parse_uint(s, max) is Ok <==> unsigned_part(s).len() > 0 && all_digits(unsigned_part(s))
            && decimal(unsigned_part(s)) <= max,
        parse_uint(s, max) matches Ok(v) ==> v == decimal(unsigned_part(s)) && v <= max,
{
    let body = unsigned_part(s);
    lemma_digits_prefix(body);
    let run = digits_len(body) as int;
    if run == body.len() {
        assert(body.take(run) == body);
    } else {
        assert(!is_digit(body[run]));
    }
}

/// The characters that `digits_len` counts are digits, and the next one is
/// none.
pub proof fn lemma_digits_prefix(s: Seq<char>)
    ensures
        digits_len(s) <= s.len(),
        forall|j: int| 0 <= j < digits_len(s) ==> is_digit(s[j]),
        digits_len(s) < s.len() ==> !is_digit(s[digits_len(s) as int]),
    decreases s.len(),
{
    if s.len() > 0 && is_digit(s[0]) {
        lemma_digits_prefix(s.skip(1));
        assert forall|j: int| 0 <= j < digits_len(s) implies is_digit(s[j]) by {
            if j > 0 {
                assert(s[j] == s.skip(1)[j - 1]);
            }
        }
    }
}

/// Reads `chars` as a number of at most `max`.
fn scan_uint(chars: &Vec<char>, max: u32) -> (r: Result<u32, IntError>)
    ensures
        match r {
            Ok(v) => parse_uint(chars@, max as nat) == Ok::<nat, IntError>(v as nat),
            Err(e) => parse_uint(chars@, max as nat) == Err::<nat, IntError>(e),
        },
        r matches Ok(v) ==> v <= max,
{
    let n = chars.len();
    if n == 0 {
        return Err(IntError::Empty);
    }
    let first: usize = if chars[0] == '+' {
        1
    } else {
        0
    };
    if first == n {
        return Err(IntError::InvalidDigit);
    }
    let ghost body = chars@.skip(first as int);
    let mut acc: u32 = 0;
    let mut i: usize = first;
    assert(body.take(0) == Seq::<char>::empty());
    assert(chars@.skip(0) == chars@);
    while i < n
        invariant
            first <= i <= n,
            first < n,
            n == chars.len(),
            body == unsigned_part(chars@),
            body == chars@.skip(first as int),
            forall|j: int| 0 <= j < i - first ==> is_digit(body[j]),
            acc == decimal(body.take(i - first)),
            acc <= max,
        decreases n - i,
    {
        let c = chars[i];
        let code: u32 = c as u32;
        assert(body[i - first] == c);
        if code < 0x30 || code > 0x39 {
            proof {
                lemma_digits_len(body, i - first);
            }
            return Err(IntError::InvalidDigit);
        }
        let next: u64 = (acc as u64) * 10 + ((code - 0x30) as u64);
        proof {
            assert(body.take(i - first + 1).drop_last() == body.take(i - first));
            assert(next == decimal(body.take(i - first + 1)));
        }
        if next > max as u64 {
            proof {
                lemma_digits_prefix(body);
                let run = digits_len(body) as int;
                if run < i - first + 1 {
                    assert(is_digit(body[run]));
                }
                lemma_decimal_grows(body, i - first + 1, run);
            }
            return Err(IntError::Overflow);
        }
        acc = next as u32;
        i += 1;
    }
    proof {
        lemma_digits_len(body, n - first);
        assert(body.take(n - first) == body);
    }
    Ok(acc)
}

/// Reads `s` as a number of 32 bits.
pub fn parse_u32(s: &str) -> (r: Result<u32, IntError>)
    ensures
        match r {
            Ok(v) => parse_uint(s@, u32::MAX as nat) == Ok::<nat, IntError>(v as nat),
            Err(e) => parse_uint(s@, u32::MAX as nat) == Err::<nat, IntError>(e),
        },
{
    let chars = to_chars(s);
    scan_uint(&chars, u32::MAX)
}

/// Reads `s` as a number of 8 bits.
pub fn parse_u8(s: &str) -> (r: Result<u8, IntError>)
    ensures
        match r {
            Ok(v) => parse_uint(s@, u8::MAX as nat) == Ok::<nat, IntError>(v as nat),
            Err(e) => parse_uint(s@, u8::MAX as nat) == Err::<nat, IntError>(e),
        },
{
    let chars = to_chars(s);
    match scan_uint(&chars, 255) {
        Ok(v) => Ok(v as u8),
        Err(e) => Err(e),
    }
}

/// Reads `s` as a boolean.
pub fn parse_bool(s: &str) -> (r: Option<bool>)
    ensures
        r == parse_flag(s@),
{
    if same_text(s, "true") {
        Some(true)
    } else if same_text(s, "false") {
        Some(false)
    } else {
        None
    }
}

/// The character for the digit `d`, lower case above nine.
pub open spec fn digit_char(d: nat) -> char {
    if d < 10 {
        (0x30 + d) as char
    } else {
        (0x61 + d - 10) as char
    }
}

/// `n` written in decimal digits, with no zero in front.
pub open spec fn decimal_text(n: nat) -> Seq<char>
    decreases n,
{
    if n < 10 {
        seq![digit_char(n)]
    } else {
        decimal_text(n / 10).push(digit_char(n % 10))
    }
}

/// What is written for a number is read as that number: digits only, none
/// of them a zero in front of another digit.
pub proof fn lemma_decimal_text(n: nat)
    ensures
        decimal_text(n).len() >= 1,
        all_digits(decimal_text(n)),
        decimal(decimal_text(n)) == n,
        n > 0 ==> decimal_text(n)[0] != '0',
        n < 10 ==> decimal_text(n).len() == 1,
        n < 100 ==> decimal_text(n).len() <= 2,
        n < 1000 ==> decimal_text(n).len() <= 3,
    decreases n,
{
    if n < 10 {
        assert(decimal_text(n).drop_last() == Seq::<char>::empty());
        assert(decimal(Seq::<char>::empty()) == 0);
        assert(digit_value(digit_char(n)) == n);
    } else {
        lemma_decimal_text(n / 10);
        let t = decimal_text(n);
        assert(t.drop_last() == decimal_text(n / 10));
        assert(digit_value(t.last()) == n % 10);
        assert(t[0] == decimal_text(n / 10)[0]);
        assert forall|i: int| 0 <= i < t.len() implies is_digit(#[trigger] t[i]) by {
            if i < t.len() - 1 {
                assert(t[i] == decimal_text(n / 10)[i]);
            }
        }
    }
}

/// What is written for a number within `max` is read as that number.
pub proof fn lemma_decimal_text_read(n: nat, max: nat)
    requires
        n <= max,
    ensures
        parse_uint(decimal_text(n), max) == Ok::<nat, IntError>(n),
{
    lemma_decimal_text(n);
    lemma_parse_uint_ok(decimal_text(n), max);
    assert(is_digit(decimal_text(n)[0]));
}

/// The text of the digit `d`.
pub fn digit_text(d: u8) -> (r: &'static str)
    requires
        d < 16,
    ensures
        r@ == seq![digit_char(d as nat)],
{
    proof {
        reveal_strlit("0");
        reveal_strlit("1");
        reveal_strlit("2");
        reveal_strlit("3");
        reveal_strlit("4");
        reveal_strlit("5");
        reveal_strlit("6");
        reveal_strlit("7");
        reveal_strlit("8");
        reveal_strlit("9");
        reveal_strlit("a");
        reveal_strlit("b");
        reveal_strlit("c");
        reveal_strlit("d");
        reveal_strlit("e");
        reveal_strlit("f");
    }
    let r = match d {
        0 => "0",
        1 => "1",
        2 => "2",
        3 => "3",
        4 => "4",
        5 => "5",
        6 => "6",
        7 => "7",
        8 => "8",
        9 => "9",
        10 => "a",
        11 => "b",
        12 => "c",
        13 => "d",
        14 => "e",
        _ => "f",
    };
    assert(r@ =~= seq![digit_char(d as nat)]);
    r
}

/// Writes `n` in decimal digits behind what `out` holds.
pub fn push_decimal(out: &mut String, n: u32)
    ensures
        final(out)@ == old(out)@ + decimal_text(n as nat),
    decreases n,
{
    if n >= 10 {
        push_decimal(out, n / 10);
    }
    out.append(digit_text((n % 10) as u8));
    proof {
        if n >= 10 {
            assert(old(out)@ + decimal_text(n as nat / 10) + seq![digit_char(n as nat % 10)] == old(
                out,
            )@ + decimal_text(n as nat));
        }
    }
}

/// What is said of the fault `e`.
pub open spec fn int_error_text(e: IntError) -> Seq<char> {
    match e {
        IntError::Empty => "cannot parse integer from empty string"@,
        IntError::InvalidDigit => "invalid digit found in string"@,
        IntError::Overflow => "number too large to fit in target type"@,
    }
}

impl IntError {
    /// What is said of the fault.
    pub fn message(&self) -> (r: &'static str)
        ensures
            r@ == int_error_text(*self),
    {
        match self {
            IntError::Empty => "cannot parse integer from empty string",
            IntError::InvalidDigit => "invalid digit found in string",
            IntError::Overflow => "number too large to fit in target type",
        }
    }
}

} // verus!
