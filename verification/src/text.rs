//! Characters and decimal numerals.

use crate::error::{Expected, ParseError};
use itertools::Itertools;
use vstd::prelude::*;
use vstd::string::StringExecFns;

verus! {

/// Whether `c` is blank space between tokens: a space or a tab.
pub open spec fn is_space(c: char) -> bool {
    c == ' ' || c == '\t'
}

/// Whether `c` is one of the ten decimal digits.
pub open spec fn is_digit(c: char) -> bool {
    '0' <= c && c <= '9'
}

/// The number that the digit `c` stands for.
pub open spec fn digit_value(c: char) -> nat {
    (c as u32 - '0' as u32) as nat
}

/// The digit that stands for `d`, for `d` below ten.
pub open spec fn digit_char(d: nat) -> char {
    (d + '0' as u32) as char
}

/// Where the run of blank space that starts at `i` ends: the first position
/// from `i` on that holds no blank, or the end of `s`.
pub open spec fn spaces_end(s: Seq<char>, i: int) -> int
    decreases s.len() - i,
{
    if 0 <= i < s.len() && is_space(s[i]) {
        spaces_end(s, i + 1)
    } else {
        i
    }
}

/// Where the run of digits that starts at `i` ends: the first position from
/// `i` on that holds no digit, or the end of `s`.
pub open spec fn digits_end(s: Seq<char>, i: int) -> int
    decreases s.len() - i,
{
    if 0 <= i < s.len() && is_digit(s[i]) {
        digits_end(s, i + 1)
    } else {
        i
    }
}

/// Whether `text` is a numeral: one decimal digit or more, and nothing else.
pub open spec fn is_numeral(text: Seq<char>) -> bool {
    &&& text.len() > 0
    &&& forall|i: int| 0 <= i < text.len() ==> is_digit(#[trigger] text[i])
}

/// The number that a run of decimal digits denotes, most significant digit
/// first. The empty run denotes zero.
pub open spec fn decimal_value(digits: Seq<char>) -> nat
    decreases digits.len(),
{
    if digits.len() == 0 {
        0
    } else {
        decimal_value(digits.drop_last()) * 10 + digit_value(digits.last())
    }
}

/// The number that `text` denotes, where `text` is a numeral and the number
/// fits a signed 64-bit integer. Text that is no numeral is a syntax error
/// at the place where its leading digits end.
pub open spec fn numeral_of(text: Seq<char>) -> Result<int, ParseError> {
    if !is_numeral(text) {
        Err(
            ParseError::SyntaxError {
                position: digits_end(text, 0) as usize,
                expected: Expected::Integer,
            },
        )
    } else if decimal_value(text) > i64::MAX {
        Err(ParseError::Overflow)
    } else {
        Ok(decimal_value(text) as int)
    }
}

/// The decimal digits of `n`, most significant first, with no leading zero
/// but for zero itself.
pub open spec fn decimal_digits(n: nat) -> Seq<char>
    decreases n,
{
    if n < 10 {
        seq![digit_char(n)]
    } else {
        decimal_digits(n / 10).push(digit_char(n % 10))
    }
}

/// The decimal numeral of `n`: its digits, after a minus sign where `n` is
/// negative.
pub open spec fn decimal_text(n: int) -> Seq<char> {
    if n < 0 {
        seq!['-'] + decimal_digits((-n) as nat)
    } else {
        decimal_digits(n as nat)
    }
}

/// The texts of `parts`, in order.
pub open spec fn texts(parts: Seq<String>) -> Seq<Seq<char>> {
    parts.map_values(|part: String| part@)
}

/// `parts` in one run, with `sep` between each two neighbours.
pub open spec fn joined(parts: Seq<Seq<char>>, sep: Seq<char>) -> Seq<char>
    decreases parts.len(),
{
    if parts.len() == 0 {
        Seq::empty()
    } else if parts.len() == 1 {
        parts[0]
    } else {
        joined(parts.drop_last(), sep) + sep + parts.last()
    }
}

/// The characters of `s`, in order.
pub fn characters(s: &str) -> (v: Vec<char>)
    ensures
        v@ == s@,
{
    let mut v: Vec<char> = Vec::new();
    for c in it: s.chars()
        invariant
            v@ == it.seq().take(it.index() as int),
    {
        v.push(c);
    }
    v
}

/// Whether `c` is blank space.
fn space(c: char) -> (b: bool)
    ensures
        b == is_space(c),
{
    c == ' ' || c == '\t'
}

/// Whether `c` is a decimal digit.
fn digit(c: char) -> (b: bool)
    ensures
        b == is_digit(c),
{
    '0' <= c && c <= '9'
}

/// The number that the digit `c` stands for.
fn digit_number(c: char) -> (d: u8)
    requires
        is_digit(c),
    ensures
        d == digit_value(c),
        d < 10,
{
    (c as u32 - '0' as u32) as u8
}

/// Skips the blank space that starts at the position `start` of the text.
pub(crate) fn skip_spaces(chars: &Vec<char>, start: usize) -> (end: usize)
    requires
        start <= chars@.len(),
    ensures
        end == spaces_end(chars@, start as int),
        start <= end <= chars@.len(),
        end < chars@.len() ==> !is_space(chars@[end as int]),
{
    let mut i: usize = start;
    while i < chars.len() && space(chars[i])
        invariant
            start <= i <= chars@.len(),
            spaces_end(chars@, start as int) == spaces_end(chars@, i as int),
        decreases chars@.len() - i,
    {
        i = i + 1;
    }
    i
}

/// Reads the run of digits that starts at the position `start` of the
/// text: where it ends, and the number it denotes where that fits a signed
/// 64-bit integer.
pub(crate) fn scan_digits(chars: &Vec<char>, start: usize) -> (run: (usize, Option<i64>))
    requires
        start <= chars@.len(),
    ensures
        run.0 == digits_end(chars@, start as int),
        start <= run.0 <= chars@.len(),
        forall|i: int| start <= i < run.0 ==> is_digit(#[trigger] chars@[i]),
        run.0 < chars@.len() ==> !is_digit(chars@[run.0 as int]),
        match run.1 {
            Some(v) => v == decimal_value(chars@.subrange(start as int, run.0 as int)),
            None => decimal_value(chars@.subrange(start as int, run.0 as int)) > i64::MAX,
        },
{
    let mut i: usize = start;
    let mut value: i64 = 0;
    let mut fits = true;
    while i < chars.len() && digit(chars[i])
        invariant
            start <= i <= chars@.len(),
            digits_end(chars@, start as int) == digits_end(chars@, i as int),
            forall|j: int| start <= j < i ==> is_digit(#[trigger] chars@[j]),
            0 <= value,
            fits ==> value == decimal_value(chars@.subrange(start as int, i as int)),
            !fits ==> decimal_value(chars@.subrange(start as int, i as int)) > i64::MAX,
        decreases chars@.len() - i,
    {
        let d = digit_number(chars[i]);
        assert(chars@.subrange(start as int, i + 1).drop_last() =~= chars@.subrange(
            start as int,
            i as int,
        ));
        if fits && value <= (i64::MAX - d as i64) / 10 {
            value = value * 10 + d as i64;
        } else {
            fits = false;
        }
        i = i + 1;
    }
    if fits {
        (i, Some(value))
    } else {
        (i, None)
    }
}

/// Reads `text` as a numeral.
pub fn parse_numeral(text: &str) -> (value: Result<i64, ParseError>)
    ensures
        match value {
            Ok(v) => numeral_of(text@) == Ok::<int, ParseError>(v as int),
            Err(e) => numeral_of(text@) == Err::<int, ParseError>(e),
        },
{
    let chars = characters(text);
    let (end, value) = scan_digits(&chars, 0);
    assert(chars@.subrange(0, chars@.len() as int) =~= chars@);
    if end == 0 || end < chars.len() {
        return Err(ParseError::SyntaxError { position: end, expected: Expected::Integer });
    }
    match value {
        Some(v) => Ok(v),
        None => Err(ParseError::Overflow),
    }
}

/// The one-character text of the digit `d`.
fn digit_text(d: u8) -> (s: &'static str)
    requires
        d < 10,
    ensures
        s@ == seq![digit_char(d as nat)],
{
    proof {
        reveal_strlit("0");
        reveal_strlit("1");
        reveal_strlit("2");
        reveal_strlit("3");
        reveal_strlit("4");
        reveal_strlit("5");
        reveal_strlit("6");
        reveal_strlit("7");
        reveal_strlit("8");
        reveal_strlit("9");
    }
    let s = match d {
        0 => "0",
        1 => "1",
        2 => "2",
        3 => "3",
        4 => "4",
        5 => "5",
        6 => "6",
        7 => "7",
        8 => "8",
        _ => "9",
    };
    assert(s@ =~= seq![digit_char(d as nat)]);
    s
}

/// Appends the decimal digits of `n` to `s`.
fn push_digits(s: &mut String, n: u64)
    ensures
        final(s)@ == old(s)@ + decimal_digits(n as nat),
    decreases n,
{
    if n >= 10 {
        push_digits(s, n / 10);
    }
    s.append(digit_text((n % 10) as u8));
    assert(s@ =~= old(s)@ + decimal_digits(n as nat));
}

/// The decimal numeral of `v`.
pub fn format_integer(v: i64) -> (s: String)
    ensures
        s@ == decimal_text(v as int),
{
    let mut s = String::new();
    if v < 0 {
        proof {
            reveal_strlit("-");
        }
        s.append("-");
        push_digits(&mut s, (-(v as i128)) as u64);
    } else {
        push_digits(&mut s, v as u64);
    }
    assert(s@ =~= decimal_text(v as int));
    s
}

/// `itertools::Itertools::join` over strings: the parts in order, with `sep`
/// written between each two neighbours and nowhere else.
#[verifier::external_body]
pub(crate) fn join_texts(parts: &Vec<String>, sep: &str) -> (s: String)
    ensures
        s@ == joined(texts(parts@), sep@),
{
    parts.iter().join(sep)
}

/// The digits of a number are a numeral, and the numeral denotes the
/// number: writing a number in decimal and reading it again gives it back.
pub proof fn lemma_decimal_round_trip(n: nat)
    ensures
        is_numeral(decimal_digits(n)),
        decimal_value(decimal_digits(n)) == n,
    decreases n,
{
    let digits = decimal_digits(n);
    assert(digit_value(digit_char(n % 10)) == n % 10);
    assert(is_digit(digit_char(n % 10)));
    if n >= 10 {
        lemma_decimal_round_trip(n / 10);
        assert(digits.drop_last() =~= decimal_digits(n / 10));
        assert(digits.last() == digit_char(n % 10));
    } else {
        assert(digits.drop_last() =~= Seq::<char>::empty());
        assert(decimal_value(digits.drop_last()) == 0);
        assert(digits.last() == digit_char(n));
    }
}

} // verus!
