//! Signed 64-bit integers in base 10: reading them from text and writing
//! them back.
//!
//! Reading follows `i64::from_str`: an optional `+` or `-`, then one or more
//! of the digits `0` to `9`, nothing else. The digits are taken from left to
//! right, and the first character that is no digit or that takes the value
//! out of range decides which failure is reported.

use vstd::prelude::*;
use vstd::string::StringExecFns;

verus! {

/// Why a text is not an `i64`.
#[derive(Clone, Copy, Debug, PartialEq, Eq, Structural)]
pub enum NumberErrorKind {
    /// The text is empty.
    Empty,
    /// A character is no digit, or a sign stands alone.
    InvalidDigit,
    /// The number is above `i64::MAX`.
    PosOverflow,
    /// The number is below `i64::MIN`.
    NegOverflow,
}

/// What is said of each kind of failure.
pub open spec fn kind_text(kind: NumberErrorKind) -> Seq<char> {
    match kind {
        NumberErrorKind::Empty => "cannot parse integer from empty string"@,
        NumberErrorKind::InvalidDigit => "invalid digit found in string"@,
        NumberErrorKind::PosOverflow => "number too large to fit in target type"@,
        NumberErrorKind::NegOverflow => "number too small to fit in target type"@,
    }
}

impl NumberErrorKind {
    /// A short description of the failure.
    pub fn description(&self) -> (s: &'static str)
        ensures
            s@ == kind_text(*self),
    {
        match self {
            NumberErrorKind::Empty => "cannot parse integer from empty string",
            NumberErrorKind::InvalidDigit => "invalid digit found in string",
            NumberErrorKind::PosOverflow => "number too large to fit in target type",
            NumberErrorKind::NegOverflow => "number too small to fit in target type",
        }
    }
}

/// Whether `c` is one of `0` to `9`.
pub open spec fn is_digit(c: char) -> bool {
    '0' as u32 <= c as u32 <= '9' as u32
}

/// The number that the digit `c` stands for.
pub open spec fn digit_value(c: char) -> int {
    c as u32 - '0' as u32
}

/// The digit that stands for `d`, for `d` from 0 to 9.
pub open spec fn digit_char(d: int) -> char {
    if d == 0 {
        '0'
    } else if d == 1 {
        '1'
    } else if d == 2 {
        '2'
    } else if d == 3 {
        '3'
    } else if d == 4 {
        '4'
    } else if d == 5 {
        '5'
    } else if d == 6 {
        '6'
    } else if d == 7 {
        '7'
    } else if d == 8 {
        '8'
    } else {
        '9'
    }
}

/// Whether every character of `s` is a digit.
pub open spec fn all_digits(s: Seq<char>) -> bool {
    forall|i: int| 0 <= i < s.len() ==> is_digit(#[trigger] s[i])
}

/// The number that a run of digits denotes in base 10; 0 for the empty run.
pub open spec fn digits_value(s: Seq<char>) -> int
    decreases s.len(),
{
    if s.len() == 0 {
        0
    } else {
        10 * digits_value(s.drop_last()) + digit_value(s.last())
    }
}

/// Whether `s` begins with a sign.
pub open spec fn has_sign(s: Seq<char>) -> bool {
    s.len() > 0 && (s[0] == '+' || s[0] == '-')
}

/// `s` without its sign, if it has one.
pub open spec fn unsigned_part(s: Seq<char>) -> Seq<char> {
    if has_sign(s) {
        s.drop_first()
    } else {
        s
    }
}

/// Whether `s` is written as an integer: an optional sign, then one or more
/// digits.
pub open spec fn is_integer_text(s: Seq<char>) -> bool {
    unsigned_part(s).len() > 0 && all_digits(unsigned_part(s))
}

/// The integer that `s` denotes, where `is_integer_text(s)`.
pub open spec fn integer_value(s: Seq<char>) -> int {
    if s.len() > 0 && s[0] == '-' {
        -digits_value(unsigned_part(s))
    } else {
        digits_value(unsigned_part(s))
    }
}

/// The value after `digits` have been read from left to right into a total
/// that starts at 0, each digit added to ten times the total, or subtracted
/// from it where `negative`. Reading stops at the first character that is no
/// digit, and at the first digit with which the total leaves the range of
/// `i64`.
pub open spec fn accumulate(digits: Seq<char>, negative: bool) -> Result<int, NumberErrorKind>
    decreases digits.len(),
{
    if digits.len() == 0 {
        Ok(0)
    } else {
        match accumulate(digits.drop_last(), negative) {
            Err(kind) => Err(kind),
            Ok(total) => {
                if !is_digit(digits.last()) {
                    Err(NumberErrorKind::InvalidDigit)
                } else if negative {
                    let next = 10 * total - digit_value(digits.last());
                    if next < i64::MIN {
                        Err(NumberErrorKind::NegOverflow)
                    } else {
                        Ok(next)
                    }
                } else {
                    let next = 10 * total + digit_value(digits.last());
                    if next > i64::MAX {
                        Err(NumberErrorKind::PosOverflow)
                    } else {
                        Ok(next)
                    }
                }
            },
        }
    }
}

/// What reading `s` as an `i64` gives.
pub open spec fn parsed_i64(s: Seq<char>) -> Result<i64, NumberErrorKind> {
    if s.len() == 0 {
        Err(NumberErrorKind::Empty)
    } else if unsigned_part(s).len() == 0 {
        Err(NumberErrorKind::InvalidDigit)
    } else {
        match accumulate(unsigned_part(s), s[0] == '-') {
            Ok(total) => Ok(total as i64),
            Err(kind) => Err(kind),
        }
    }
}

/// The digits of `n` in base 10, without leading zeros; `0` for 0.
pub open spec fn digits_of(n: nat) -> Seq<char>
    decreases n,
{
    if n < 10 {
        seq![digit_char(n as int)]
    } else {
        digits_of(n / 10).push(digit_char((n % 10) as int))
    }
}

/// `n` written in base 10, with `-` in front where it is negative.
pub open spec fn decimal(n: int) -> Seq<char> {
    if n < 0 {
        seq!['-'] + digits_of((-n) as nat)
    } else {
        digits_of(n as nat)
    }
}

/// Once reading has failed on a prefix, it fails in the same way on every
/// longer text.
pub proof fn lemma_accumulate_stops(digits: Seq<char>, negative: bool, k: int)
    requires
        0 <= k <= digits.len(),
        accumulate(digits.take(k), negative) is Err,
    ensures
        accumulate(digits, negative) == accumulate(digits.take(k), negative),
    decreases digits.len() - k,
{
    if k == digits.len() {
        assert(digits.take(k) =~= digits);
    } else {
        assert(digits.drop_last().take(k) =~= digits.take(k));
        lemma_accumulate_stops(digits.drop_last(), negative, k);
    }
}

/// The value of a run of digits is not negative, and no smaller than the
/// value of the run without its last digit.
pub proof fn lemma_digits_value_grows(s: Seq<char>)
    requires
        all_digits(s),
    ensures
        0 <= digits_value(s),
        s.len() > 0 ==> digits_value(s.drop_last()) <= digits_value(s),
    decreases s.len(),
{
    if s.len() > 0 {
        let rest = s.drop_last();
        assert forall|i: int| 0 <= i < rest.len() implies is_digit(#[trigger] rest[i]) by {
            assert(rest[i] == s[i]);
        }
        lemma_digits_value_grows(rest);
        assert(is_digit(s[s.len() - 1]));
    }
}

/// Reading digits succeeds exactly where all of them are digits and the
/// number they denote, with its sign, is in the range of `i64`; it then gives
/// that number.
pub proof fn lemma_accumulate_value(digits: Seq<char>, negative: bool)
    ensures
        accumulate(digits, negative) is Ok <==> all_digits(digits) && i64::MIN <= (if negative {
            -digits_value(digits)
        } else {
            digits_value(digits)
        }) <= i64::MAX,
        accumulate(digits, negative) is Ok ==> accumulate(digits, negative)->Ok_0 == (if negative {
            -digits_value(digits)
        } else {
            digits_value(digits)
        }),
    decreases digits.len(),
{
    if digits.len() > 0 {
        let rest = digits.drop_last();
        lemma_accumulate_value(rest, negative);
        if all_digits(digits) {
            assert forall|i: int| 0 <= i < rest.len() implies is_digit(#[trigger] rest[i]) by {
                assert(rest[i] == digits[i]);
            }
            lemma_digits_value_grows(digits);
            lemma_digits_value_grows(rest);
            assert(is_digit(digits[digits.len() - 1]));
        } else {
            if all_digits(rest) {
                assert(!is_digit(digits.last())) by {
                    if is_digit(digits.last()) {
                        assert forall|i: int| 0 <= i < digits.len() implies is_digit(
                            #[trigger] digits[i],
                        ) by {
                            if i < rest.len() {
                                assert(rest[i] == digits[i]);
                            }
                        }
                    }
                }
            }
        }
    }
}

/// Reading succeeds exactly on the texts that are written as an integer in
/// the range of `i64`, and gives the integer they denote.
pub proof fn lemma_parsed_i64_value(s: Seq<char>)
    ensures
        parsed_i64(s) is Ok <==> is_integer_text(s) && i64::MIN <= integer_value(s) <= i64::MAX,
        parsed_i64(s) is Ok ==> parsed_i64(s)->Ok_0 == integer_value(s),
{
    if s.len() > 0 {
        lemma_accumulate_value(unsigned_part(s), s[0] == '-');
    }
}

/// The digits written for `n` are digits, at least one, and denote `n`.
pub proof fn lemma_digits_of_value(n: nat)
    ensures
        digits_of(n).len() > 0,
        all_digits(digits_of(n)),
        digits_value(digits_of(n)) == n,
    decreases n,
{
    let s = digits_of(n);
    if n < 10 {
        assert(s.drop_last() =~= Seq::<char>::empty());
        assert(digits_value(s.drop_last()) == 0);
    } else {
        lemma_digits_of_value(n / 10);
        let rest = digits_of(n / 10);
        assert(s.drop_last() =~= rest);
        assert(s.last() == digit_char((n % 10) as int));
        assert forall|i: int| 0 <= i < s.len() implies is_digit(#[trigger] s[i]) by {
            if i < rest.len() {
                assert(s[i] == rest[i]);
            }
        }
    }
}

/// Writing an `i64` and reading the text back gives the same number.
pub proof fn lemma_decimal_round_trip(n: i64)
    ensures
        parsed_i64(decimal(n as int)) == Ok::<i64, NumberErrorKind>(n),
{
    let s = decimal(n as int);
    if n < 0 {
        let m = (-n) as nat;
        lemma_digits_of_value(m);
        assert(s.drop_first() =~= digits_of(m));
        assert(s[0] == '-');
        lemma_accumulate_value(digits_of(m), true);
    } else {
        let m = n as nat;
        lemma_digits_of_value(m);
        assert(is_digit(s[0]));
        lemma_accumulate_value(s, false);
    }
}

/// Reads `s` as an `i64` in base 10.
pub fn parse_i64(s: &[char]) -> (r: Result<i64, NumberErrorKind>)
    ensures
        r == parsed_i64(s@),
{
    let n = s.len();
    if n == 0 {
        return Err(NumberErrorKind::Empty);
    }
    let signed = s[0] == '+' || s[0] == '-';
    let negative = s[0] == '-';
    let start: usize = if signed {
        1
    } else {
        0
    };
    if start == n {
        return Err(NumberErrorKind::InvalidDigit);
    }
    let ghost digits = unsigned_part(s@);
    let mut total: i64 = 0;
    let mut i: usize = start;
    while i < n
        invariant
            start <= i <= n == s@.len(),
            start < n,
            digits == unsigned_part(s@),
            digits.len() == n - start,
            negative == (s@[0] == '-'),
            forall|j: int| 0 <= j < digits.len() ==> digits[j] == s@[start + j],
            accumulate(digits.take(i - start), negative) == Ok::<int, NumberErrorKind>(
                total as int,
            ),
        decreases n - i,
    {
        let u: u32 = s[i] as u32;
        let ghost seen = digits.take(i - start + 1);
        proof {
            assert(seen.drop_last() =~= digits.take(i - start));
            assert(seen.last() == s@[i as int]);
            assert(digit_value(seen.last()) == u - '0' as u32);
            assert(is_digit(seen.last()) <==> '0' as u32 <= u <= '9' as u32);
        }
        if u < '0' as u32 || u > '9' as u32 {
            proof {
                lemma_accumulate_stops(digits, negative, i - start + 1);
            }
            return Err(NumberErrorKind::InvalidDigit);
        }
        let d: i64 = (u - '0' as u32) as i64;
        let next = match total.checked_mul(10) {
            None => None,
            Some(tens) => if negative {
                tens.checked_sub(d)
            } else {
                tens.checked_add(d)
            },
        };
        match next {
            Some(value) => {
                total = value;
            },
            None => {
                proof {
                    lemma_accumulate_value(digits.take(i - start), negative);
                    lemma_digits_value_grows(digits.take(i - start));
                    assert(accumulate(seen, negative) is Err);
                    lemma_accumulate_stops(digits, negative, i - start + 1);
                }
                if negative {
                    return Err(NumberErrorKind::NegOverflow);
                } else {
                    return Err(NumberErrorKind::PosOverflow);
                }
            },
        }
        i += 1;
    }
    proof {
        assert(digits.take(n - start) =~= digits);
    }
    Ok(total)
}

/// The digit `d` as a string of one character.
fn digit_str(d: u64) -> (s: &'static str)
    requires
        d < 10,
    ensures
        s@ == seq![digit_char(d as int)],
{
    proof {
        reveal_strlit("0");
        reveal_strlit("1");
        reveal_strlit("2");
        reveal_strlit("3");
        reveal_strlit("4");
        reveal_strlit("5");
        reveal_strlit("6");
        reveal_strlit("7");
        reveal_strlit("8");
        reveal_strlit("9");
    }
    let s = if d == 0 {
        "0"
    } else if d == 1 {
        "1"
    } else if d == 2 {
        "2"
    } else if d == 3 {
        "3"
    } else if d == 4 {
        "4"
    } else if d == 5 {
        "5"
    } else if d == 6 {
        "6"
    } else if d == 7 {
        "7"
    } else if d == 8 {
        "8"
    } else {
        "9"
    };
    assert(s@ =~= seq![digit_char(d as int)]);
    s
}

/// Appends the digits of `n` to `out`.
fn push_digits(out: &mut String, n: u64)
    ensures
        final(out)@ == old(out)@ + digits_of(n as nat),
    decreases n,
{
    if n >= 10 {
        push_digits(out, n / 10);
    }
    out.append(digit_str(n % 10));
    assert(out@ =~= old(out)@ + digits_of(n as nat));
}

/// Writes `n` in base 10, as `{}` formats it.
pub fn format_i64(n: i64) -> (s: String)
    ensures
        s@ == decimal(n as int),
{
    let mut s = String::new();
    if n < 0 {
        s.append("-");
        proof {
            reveal_strlit("-");
            assert(s@ =~= seq!['-']);
        }
        // The magnitude of `i64::MIN` does not fit in an `i64`.
        let magnitude: u64 = if n == i64::MIN {
            9223372036854775808u64
        } else {
            (-n) as u64
        };
        push_digits(&mut s, magnitude);
    } else {
        push_digits(&mut s, n as u64);
        proof {
            assert(s@ =~= digits_of(n as nat));
        }
    }
    s
}

} // verus!
