//! Reading and writing short pieces of text: decimal numbers, trailing
//! whitespace, suffixes.

use vstd::prelude::*;
use vstd::string::{StrSliceExecFns, StringExecFns};

verus! {

/// Whether a character has the Unicode property `White_Space`.
pub open spec fn white_space(c: char) -> bool {
    ||| '\u{9}' <= c <= '\u{d}'
    ||| c == ' '
    ||| c == '\u{85}'
    ||| c == '\u{a0}'
    ||| c == '\u{1680}'
    ||| '\u{2000}' <= c <= '\u{200a}'
    ||| c == '\u{2028}'
    ||| c == '\u{2029}'
    ||| c == '\u{202f}'
    ||| c == '\u{205f}'
    ||| c == '\u{3000}'
}

/// Tells whether a character has the Unicode property `White_Space`.
pub fn is_white_space(c: char) -> (res: bool)
    ensures
        res == white_space(c),
{
    ('\u{9}' <= c && c <= '\u{d}') || c == ' ' || c == '\u{85}' || c == '\u{a0}' || c == '\u{1680}'
        || ('\u{2000}' <= c && c <= '\u{200a}') || c == '\u{2028}' || c == '\u{2029}' || c
        == '\u{202f}' || c == '\u{205f}' || c == '\u{3000}'
}

/// The text without the white space that ends it.
pub open spec fn trimmed(s: Seq<char>) -> Seq<char>
    decreases s.len(),
{
    if s.len() > 0 && white_space(s.last()) {
        trimmed(s.drop_last())
    } else {
        s
    }
}

/// The characters of a string.
pub fn chars_of(s: &str) -> (res: Vec<char>)
    ensures
        res@ == s@,
{
    let mut res: Vec<char> = Vec::new();
    for c in it: s.chars()
        invariant
            res@ == it.seq().take(it.index()),
    {
        res.push(c);
    }
    res
}


/// The characters of a string, without the white space that ends it.
pub fn trim_end(s: &str) -> (res: Vec<char>)
    ensures
        res@ == trimmed(s@),
{
    let mut res: Vec<char> = chars_of(s);
    while res.len() > 0 && is_white_space(res[res.len() - 1])
        invariant
            trimmed(res@) == trimmed(s@),
        ensures
            res@ == trimmed(s@),
        decreases res.len(),
    {
        let ghost before = res@;
        let _ = res.pop();
        assert(res@ == before.drop_last());
    }
    res
}

/// Tells whether a string ends with another one.
pub fn ends_with(s: &str, suffix: &str) -> (res: bool)
    ensures
        res == suffix@.is_suffix_of(s@),
{
    let whole: Vec<char> = chars_of(s);
    let tail: Vec<char> = chars_of(suffix);
    if tail.len() > whole.len() {
        return false;
    }
    let start: usize = whole.len() - tail.len();
    let mut i: usize = 0;
    while i < tail.len()
        invariant
            whole@ == s@,
            tail@ == suffix@,
            start == whole.len() - tail.len(),
            i <= tail.len(),
            forall|k: int| 0 <= k < i ==> whole@[start + k] == tail@[k],
        decreases tail.len() - i,
    {
        if whole[start + i] != tail[i] {
            assert(s@.subrange(start as int, s@.len() as int)[i as int] != suffix@[i as int]);
            return false;
        }
        i += 1;
    }
    assert(s@.subrange(start as int, s@.len() as int) =~= suffix@);
    true
}

/// Tells whether two strings are the same.
pub fn same_text(a: &str, b: &str) -> (res: bool)
    ensures
        res == (a@ == b@),
{
    let left: Vec<char> = chars_of(a);
    let right: Vec<char> = chars_of(b);
    if left.len() != right.len() {
        return false;
    }
    let mut i: usize = 0;
    while i < left.len()
        invariant
            left@ == a@,
            right@ == b@,
            left.len() == right.len(),
            i <= left.len(),
            forall|k: int| 0 <= k < i ==> left@[k] == right@[k],
        decreases left.len() - i,
    {
        if left[i] != right[i] {
            return false;
        }
        i += 1;
    }
    assert(left@ =~= right@);
    true
}

/// Three texts, one behind the other.
pub fn joined(first: &str, second: &str, third: &str) -> (res: String)
    ensures
        res@ == first@ + second@ + third@,
{
    let mut res: String = first.to_owned();
    res.append(second);
    res.append(third);
    res
}

/// Whether a character is a decimal digit.
pub open spec fn digit(c: char) -> bool {
    '0' <= c <= '9'
}

/// The number that a run of decimal digits stands for.
pub open spec fn value(s: Seq<char>) -> nat
    decreases s.len(),
{
    if s.len() == 0 {
        0
    } else {
        10 * value(s.drop_last()) + (s.last() as nat - '0' as nat) as nat
    }
}

/// How many decimal digits a text begins with.
pub open spec fn digit_run(s: Seq<char>) -> nat
    decreases s.len(),
{
    if s.len() == 0 || !digit(s[0]) {
        0
    } else {
        1 + digit_run(s.drop_first())
    }
}

/// The decimal digits of a number, without leading zeros.
pub open spec fn decimal(n: nat) -> Seq<char>
    decreases n,
{
    if n < 10 {
        seq![(n + '0' as nat) as char]
    } else {
        decimal(n / 10).push((n % 10 + '0' as nat) as char)
    }
}

/// Why a text is not a number of 32 bits.
#[derive(Clone, Copy, Debug, PartialEq, Eq, Structural)]
pub enum NumberError {
    /// There is no text.
    Empty,
    /// A character is not a digit.
    InvalidDigit,
    /// The number is too large.
    PosOverflow,
}

/// The sentence that describes the error to a user.
pub open spec fn number_error_text(e: NumberError) -> Seq<char> {
    match e {
        NumberError::Empty => "cannot parse integer from empty string"@,
        NumberError::InvalidDigit => "invalid digit found in string"@,
        NumberError::PosOverflow => "number too large to fit in target type"@,
    }
}

impl NumberError {
    /// The sentence that describes the error to a user.
    pub fn message(&self) -> (res: String)
        ensures
            res@ == number_error_text(*self),
    {
        match self {
            NumberError::Empty => "cannot parse integer from empty string".to_owned(),
            NumberError::InvalidDigit => "invalid digit found in string".to_owned(),
            NumberError::PosOverflow => "number too large to fit in target type".to_owned(),
        }
    }
}

/// The part of a text that has to be a run of digits: what follows a leading
/// plus sign, unless the sign stands alone.
pub open spec fn unsigned_part(s: Seq<char>) -> Seq<char> {
    if s.len() > 1 && s[0] == '+' {
        s.drop_first()
    } else {
        s
    }
}

/// The number of 32 bits that a text stands for. Of two faults the one that
/// comes first from the left is the error.
pub open spec fn number(s: Seq<char>) -> Result<u32, NumberError> {
    let body = unsigned_part(s);
    let run = digit_run(body);
    let v = value(body.take(run as int));
    if s.len() == 0 {
        Err(NumberError::Empty)
    } else if v > u32::MAX {
        Err(NumberError::PosOverflow)
    } else if run < body.len() {
        Err(NumberError::InvalidDigit)
    } else {
        Ok(v as u32)
    }
}

/// A run of digits ends where the first character that is no digit stands.
proof fn lemma_digit_run(s: Seq<char>, k: int)
    requires
        0 <= k <= s.len(),
        forall|i: int| 0 <= i < k ==> digit(s[i]),
    ensures
        digit_run(s) >= k,
        digit_run(s) <= s.len(),
        k == s.len() || !digit(s[k]) ==> digit_run(s) == k,
        forall|i: int| 0 <= i < digit_run(s) ==> digit(s[i]),
    decreases s.len(),
{
    if s.len() > 0 && digit(s[0]) {
        let rest = s.drop_first();
        lemma_digit_run(rest, if k > 0 { k - 1 } else { 0 });
        assert forall|i: int| 0 <= i < digit_run(s) implies digit(s[i]) by {
            if i > 0 {
                assert(rest[i - 1] == s[i]);
            }
        }
    }
}

/// More digits stand for a number that is no smaller.
proof fn lemma_value_grows(s: Seq<char>, i: int, j: int)
    requires
        0 <= i <= j <= s.len(),
    ensures
        value(s.take(i)) <= value(s.take(j)),
    decreases j - i,
{
    if i < j {
        lemma_value_grows(s, i, j - 1);
        assert(s.take(j).drop_last() =~= s.take(j - 1));
    }
}

/// The value of a digit.
fn digit_value(c: char) -> (res: Option<u32>)
    ensures
        res == (if digit(c) {
            Some((c as nat - '0' as nat) as u32)
        } else {
            None::<u32>
        }),
{
    if '0' <= c && c <= '9' {
        Some(c as u32 - '0' as u32)
    } else {
        None
    }
}

/// Reads a number of 32 bits in decimal notation.
pub fn parse_number(s: &Vec<char>) -> (res: Result<u32, NumberError>)
    ensures
        res == number(s@),
{
    if s.len() == 0 {
        return Err(NumberError::Empty);
    }
    let start: usize = if s.len() > 1 && s[0] == '+' {
        1
    } else {
        0
    };
    let ghost body = unsigned_part(s@);
    assert(body =~= s@.skip(start as int));
    let mut acc: u32 = 0;
    let mut i: usize = start;
    while i < s.len()
        invariant
            s.len() > 0,
            start <= i <= s.len(),
            body == unsigned_part(s@),
            body == s@.skip(start as int),
            forall|k: int| 0 <= k < i - start ==> digit(body[k]),
            acc == value(body.take(i - start)),
        decreases s.len() - i,
    {
        let ghost k = i - start;
        assert(body[k] == s@[i as int]);
        assert(body.take(k + 1).drop_last() =~= body.take(k));
        match digit_value(s[i]) {
            None => {
                proof {
                    lemma_digit_run(body, k);
                }
                return Err(NumberError::InvalidDigit);
            },
            Some(d) => {
                proof {
                    lemma_digit_run(body, k + 1);
                    lemma_value_grows(body, k + 1, digit_run(body) as int);
                }
                if acc > (u32::MAX - d) / 10 {
                    return Err(NumberError::PosOverflow);
                }
                acc = acc * 10 + d;
            },
        }
        i += 1;
    }
    proof {
        lemma_digit_run(body, body.len() as int);
    }
    Ok(acc)
}

/// The bytes of a text of ASCII characters.
pub open spec fn ascii(s: Seq<char>) -> Seq<u8> {
    s.map_values(|c: char| c as u8)
}

/// The bytes of a string of ASCII characters.
pub fn ascii_bytes(s: &str) -> (res: Vec<u8>)
    requires
        vstd::utf8::is_ascii_chars(s@),
    ensures
        res@ == ascii(s@),
{
    proof {
        vstd::utf8::is_ascii_chars_encode_utf8(s@);
    }
    let res = s.as_bytes_vec();
    assert(res@ =~= ascii(s@));
    res
}

/// A number in decimal notation, with a minus sign where it is negative.
pub open spec fn signed_decimal(n: int) -> Seq<char> {
    if n < 0 {
        seq!['-'] + decimal((-n) as nat)
    } else {
        decimal(n as nat)
    }
}

/// A number below ten to the power `width` has at most `width` digits.
pub proof fn lemma_decimal_len(n: nat, width: nat)
    requires
        width > 0,
        n < vstd::arithmetic::power::pow(10, width),
    ensures
        1 <= decimal(n).len() <= width,
    decreases n,
{
    reveal(vstd::arithmetic::power::pow);
    if n >= 10 {
        assert(width > 1) by {
            assert(vstd::arithmetic::power::pow(10, 0) == 1);
            if width == 1 {
                assert(vstd::arithmetic::power::pow(10, 1) == 10 * vstd::arithmetic::power::pow(10, 0));
            }
        }
        lemma_decimal_len(n / 10, (width - 1) as nat);
    }
}

/// Writes a number behind the bytes of `out`, in decimal notation.
pub fn push_decimal(out: &mut Vec<u8>, n: u32)
    ensures
        final(out)@ == old(out)@ + ascii(decimal(n as nat)),
    decreases n,
{
    if n >= 10 {
        push_decimal(out, n / 10);
    }
    out.push((n % 10) as u8 + 48);
    assert(out@ =~= old(out)@ + ascii(decimal(n as nat)));
}

/// Reading back the decimal notation of a number gives the number.
pub proof fn decimal_round_trip(n: nat)
    ensures
        decimal(n).len() > 0,
        forall|i: int| 0 <= i < decimal(n).len() ==> digit(#[trigger] decimal(n)[i]),
        value(decimal(n)) == n,
        n <= u32::MAX ==> number(decimal(n)) == Ok::<u32, NumberError>(n as u32),
    decreases n,
{
    let s = decimal(n);
    reveal_with_fuel(value, 2);
    if n >= 10 {
        decimal_round_trip(n / 10);
        assert(s.drop_last() =~= decimal(n / 10));
    } else {
        assert(s.drop_last() =~= Seq::<char>::empty());
    }
    lemma_digit_run(s, s.len() as int);
    assert(s.take(s.len() as int) =~= s);
    assert(digit(s[0]));
}

/// What is trimmed off a text is white space, and what is left does not end with
/// any.
pub proof fn trimming_takes_the_white_space_at_the_end(s: Seq<char>)
    ensures
        trimmed(s).is_prefix_of(s),
        forall|i: int| trimmed(s).len() <= i < s.len() ==> white_space(#[trigger] s[i]),
        trimmed(s).len() > 0 ==> !white_space(trimmed(s).last()),
    decreases s.len(),
{
    if s.len() > 0 && white_space(s.last()) {
        let short = s.drop_last();
        trimming_takes_the_white_space_at_the_end(short);
        let t = trimmed(s);
        assert forall|i: int| 0 <= i < t.len() implies t[i] == s[i] by {
            assert(short.subrange(0, t.len() as int)[i] == t[i]);
        }
        assert(s.subrange(0, t.len() as int) =~= t);
        assert forall|i: int| t.len() <= i < s.len() implies white_space(#[trigger] s[i]) by {
            if i < short.len() {
                assert(short[i] == s[i]);
            }
        }
    } else {
        assert(s.subrange(0, s.len() as int) =~= s);
    }
}

/// The digits are the ten characters from zero to nine, and each stands for its
/// distance from zero.
pub proof fn digits_stand_for_their_place(c: char)
    ensures
        digit(c) <==> 48 <= c as u32 <= 57,
        digit(c) ==> value(seq![c]) == c as u32 - 48,
{
    reveal_with_fuel(value, 2);
    assert(seq![c].drop_last() =~= seq![]);
}

/// Digits stand for more the further left they are: by a power of ten for each
/// digit that follows.
pub proof fn places_are_powers_of_ten(a: Seq<char>, b: Seq<char>)
    ensures
        value(a + b) == value(a) * vstd::arithmetic::power::pow(10, b.len()) + value(b),
    decreases b.len(),
{
    let scale = vstd::arithmetic::power::pow(10, b.len());
    if b.len() == 0 {
        vstd::arithmetic::power::lemma_pow0(10);
        assert(a + b =~= a);
    } else {
        let short = b.drop_last();
        let before = vstd::arithmetic::power::pow(10, short.len());
        places_are_powers_of_ten(a, short);
        assert((a + b).drop_last() =~= a + short);
        assert((a + b).last() == b.last());
        reveal(vstd::arithmetic::power::pow);
        assert(scale == 10 * before);
        assert(10 * (value(a) * before) == value(a) * (10 * before)) by (nonlinear_arith);
    }
}

/// A text of digits without a needless zero in front is the decimal notation of
/// its value.
pub proof fn decimal_is_unique(s: Seq<char>)
    requires
        s.len() > 0,
        forall|i: int| 0 <= i < s.len() ==> digit(#[trigger] s[i]),
        s.len() > 1 ==> s[0] != '0',
    ensures
        decimal(value(s)) == s,
        s.len() > 1 ==> value(s) >= 10,
    decreases s.len(),
{
    let short = s.drop_last();
    let last = (s.last() as nat - '0' as nat) as nat;
    assert(digit(s[s.len() - 1]));
    if s.len() == 1 {
        assert(short =~= seq![]);
        assert(value(short) == 0);
        assert(decimal(value(s)) =~= s);
    } else {
        assert forall|i: int| 0 <= i < short.len() implies digit(#[trigger] short[i]) by {
            assert(short[i] == s[i]);
        }
        decimal_is_unique(short);
        if short.len() == 1 {
            reveal_with_fuel(value, 2);
            assert(short.drop_last() =~= seq![]);
            assert(digit(s[0]));
            assert(value(short) >= 1);
        }
        let v = value(s);
        assert(v == 10 * value(short) + last);
        assert(v / 10 == value(short) && v % 10 == last);
        assert(decimal(v) =~= s);
    }
}

/// The decimal notation of a number is a text of digits without a needless zero
/// in front, and it stands for the number.
pub proof fn decimal_notation(n: nat)
    ensures
        decimal(n).len() > 0,
        forall|i: int| 0 <= i < decimal(n).len() ==> digit(#[trigger] decimal(n)[i]),
        decimal(n).len() > 1 ==> decimal(n)[0] != '0',
        value(decimal(n)) == n,
    decreases n,
{
    decimal_round_trip(n);
    if n >= 10 {
        decimal_notation(n / 10);
        assert(decimal(n)[0] == decimal(n / 10)[0]);
        if n / 10 < 10 {
            assert(decimal(n / 10)[0] == (n / 10 + '0' as nat) as char);
            assert(n / 10 >= 1);
        } else {
            decimal_notation(n / 10 / 10);
        }
    }
}

/// A number with a minus sign where it is negative: behind the sign stands the
/// decimal notation of its distance from zero.
pub proof fn signed_decimal_notation(n: int)
    ensures
        n >= 0 ==> signed_decimal(n) == decimal(n as nat),
        n < 0 ==> signed_decimal(n) == "-"@ + decimal((-n) as nat),
{
    reveal_strlit("-");
    if n < 0 {
        assert(signed_decimal(n) =~= "-"@ + decimal((-n) as nat));
    }
}

/// An ASCII text has the same bytes in ASCII as in UTF-8.
pub proof fn ascii_is_utf8(s: Seq<char>)
    requires
        vstd::utf8::is_ascii_chars(s),
    ensures
        ascii(s) == vstd::utf8::encode_utf8(s),
{
    vstd::utf8::is_ascii_chars_encode_utf8(s);
    assert(ascii(s) =~= vstd::utf8::encode_utf8(s));
}

/// A text with or without a plus sign in front.
pub open spec fn signed(plus: bool, s: Seq<char>) -> Seq<char> {
    if plus {
        seq!['+'] + s
    } else {
        s
    }
}

/// A text of digits, with or without a plus sign, is the number that the digits
/// stand for, unless that is too large. No text at all is no number.
pub proof fn digits_are_numbers(plus: bool, digits: Seq<char>)
    requires
        forall|i: int| 0 <= i < digits.len() ==> digit(#[trigger] digits[i]),
    ensures
        number(Seq::<char>::empty()) == Err::<u32, NumberError>(NumberError::Empty),
        digits.len() > 0 && value(digits) <= u32::MAX ==> number(signed(plus, digits)) == Ok::<
            u32,
            NumberError,
        >(value(digits) as u32),
        digits.len() > 0 && value(digits) > u32::MAX ==> number(signed(plus, digits)) == Err::<
            u32,
            NumberError,
        >(NumberError::PosOverflow),
{
    if digits.len() > 0 {
        let s = signed(plus, digits);
        assert(digit(digits[0]));
        assert(unsigned_part(s) =~= digits);
        lemma_digit_run(digits, digits.len() as int);
        assert(digits.take(digits.len() as int) =~= digits);
    }
}

/// Where a character is no digit, what stands before it decides: too many digits
/// are a number that is too large, and otherwise the character is the fault.
/// This holds of every text but one with a plus sign in front, unless the sign
/// is taken as such.
pub proof fn first_fault_decides(plus: bool, digits: Seq<char>, c: char, rest: Seq<char>)
    requires
        forall|i: int| 0 <= i < digits.len() ==> digit(#[trigger] digits[i]),
        !digit(c),
        !plus && digits.len() == 0 && c == '+' ==> rest.len() == 0,
    ensures
        number(signed(plus, digits.push(c) + rest)) == Err::<u32, NumberError>(
            if value(digits) > u32::MAX {
                NumberError::PosOverflow
            } else {
                NumberError::InvalidDigit
            },
        ),
{
    let body = digits.push(c) + rest;
    let s = signed(plus, body);
    if !plus && digits.len() > 0 {
        assert(digit(digits[0]));
    }
    assert(unsigned_part(s) =~= body);
    assert forall|i: int| 0 <= i < digits.len() implies digit(body[i]) by {
        assert(body[i] == digits[i]);
    }
    assert(body[digits.len() as int] == c);
    lemma_digit_run(body, digits.len() as int);
    assert(body.take(digits.len() as int) =~= digits);
}

} // verus!
