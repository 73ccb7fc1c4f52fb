//! Conversion between decimal percent strings and fixed-point percents,
//! stored in hundredths of a percent (`500` is `5.00 %`).
use vstd::prelude::*;
use vstd::utf8::{encode_utf8, is_ascii_chars, is_ascii_chars_encode_utf8};

verus! {

/// Smallest accepted percent, in hundredths of a percent (0.01 %).
pub const MIN_FEE_PERCENT: u64 = 1;

/// Largest accepted percent, in hundredths of a percent (10 %).
pub const MAX_FEE_PERCENT: u64 = 1000;

/// Percent that a new calculator starts with (5 %).
pub const DEFAULT_PERCENT: u64 = 500;

/// Values in hundredths are read saturating at this value, one above the
/// largest percent: every larger value is rejected alike.
const DIGITS_CAP: u64 = 1001;

/// Exponents are read saturating at 2^100, beyond any text's length.
const EXPONENT_CAP: u128 = 1267650600228229401496703205376;

/// Why a text is not a number at all.
#[derive(Debug, Clone, Copy, PartialEq, Eq, Structural)]
pub enum NumberErrorKind {
    /// The text is empty.
    Empty,
    /// The text is not a decimal number.
    Invalid,
}

/// Why a percent string was rejected.
#[derive(Debug, Clone, Copy, PartialEq, Eq, Structural)]
pub enum ParseError {
    /// The text is not a decimal number.
    InvalidNumber(NumberErrorKind),
    /// The value is below `MIN_FEE_PERCENT`.
    TooLowPercent,
    /// The value is above `MAX_FEE_PERCENT`.
    TooHighPercent,
    /// More than two characters follow the first `.`.
    TooManyDecimals,
}

impl ParseError {
    /// Human-readable description of the error.
    pub fn message(&self) -> (r: &'static str)
        ensures
            r@ == self.message_spec(),
    {
        match self {
            ParseError::InvalidNumber(NumberErrorKind::Empty) => "cannot parse float from empty string",
            ParseError::InvalidNumber(NumberErrorKind::Invalid) => "invalid float literal",
            ParseError::TooLowPercent => "provided percent is less than 0.01%",
            ParseError::TooHighPercent => "provided percent is more than 10%",
            ParseError::TooManyDecimals => "provided percent could contain only 2 decimals",
        }
    }

    pub open spec fn message_spec(&self) -> Seq<char> {
        match self {
            ParseError::InvalidNumber(NumberErrorKind::Empty) => "cannot parse float from empty string"@,
            ParseError::InvalidNumber(NumberErrorKind::Invalid) => "invalid float literal"@,
            ParseError::TooLowPercent => "provided percent is less than 0.01%"@,
            ParseError::TooHighPercent => "provided percent is more than 10%"@,
            ParseError::TooManyDecimals => "provided percent could contain only 2 decimals"@,
        }
    }
}

pub open spec fn is_digit(c: char) -> bool {
    c == '0' || c == '1' || c == '2' || c == '3' || c == '4' || c == '5' || c == '6' || c == '7'
        || c == '8' || c == '9'
}

/// The value of a decimal digit character.
pub open spec fn digit_value(c: char) -> nat {
    if c == '1' { 1 }
    else if c == '2' { 2 }
    else if c == '3' { 3 }
    else if c == '4' { 4 }
    else if c == '5' { 5 }
    else if c == '6' { 6 }
    else if c == '7' { 7 }
    else if c == '8' { 8 }
    else if c == '9' { 9 }
    else { 0 }
}

/// The character of a decimal digit.
pub open spec fn digit_char(d: nat) -> char {
    if d == 1 { '1' }
    else if d == 2 { '2' }
    else if d == 3 { '3' }
    else if d == 4 { '4' }
    else if d == 5 { '5' }
    else if d == 6 { '6' }
    else if d == 7 { '7' }
    else if d == 8 { '8' }
    else if d == 9 { '9' }
    else { '0' }
}

pub open spec fn all_digits(d: Seq<char>) -> bool {
    forall|i: int| 0 <= i < d.len() ==> is_digit(#[trigger] d[i])
}

/// The number that a run of decimal digits writes, most significant first.
pub open spec fn digits_value(d: Seq<char>) -> nat
    decreases d.len(),
{
    if d.len() == 0 {
        0
    } else {
        digits_value(d.drop_last()) * 10 + digit_value(d.last())
    }
}

/// Index of the first `.` at or after `i`, or the length when there is none.
pub open spec fn dot_from(s: Seq<char>, i: nat) -> nat
    decreases s.len() - i,
{
    if i >= s.len() {
        s.len()
    } else if s[i as int] == '.' {
        i
    } else {
        dot_from(s, i + 1)
    }
}

/// Index of the first `.` in `s`, or its length when there is none.
pub open spec fn first_dot(s: Seq<char>) -> nat {
    dot_from(s, 0)
}

/// The text after the first `.` (empty without a `.`).
pub open spec fn decimal_part(s: Seq<char>) -> Seq<char> {
    if first_dot(s) < s.len() {
        s.subrange(first_dot(s) + 1int, s.len() as int)
    } else {
        Seq::empty()
    }
}

/// Length in UTF-8 bytes of the text after the first `.`.
pub open spec fn fraction_len(s: Seq<char>) -> int {
    encode_utf8(decimal_part(s)).len() as int
}

pub open spec fn has_too_many_decimals(s: Seq<char>) -> bool {
    fraction_len(s) > 2
}

/// Length of a leading `+` or `-`.
pub open spec fn sign_len(s: Seq<char>) -> nat {
    if s.len() > 0 && (s[0] == '+' || s[0] == '-') {
        1
    } else {
        0
    }
}

pub open spec fn is_negative(s: Seq<char>) -> bool {
    s.len() > 0 && s[0] == '-'
}

/// Index of the first `e` or `E` at or after `i`, or the length when there is none.
pub open spec fn exp_from(s: Seq<char>, i: nat) -> nat
    decreases s.len() - i,
{
    if i >= s.len() {
        s.len()
    } else if s[i as int] == 'e' || s[i as int] == 'E' {
        i
    } else {
        exp_from(s, i + 1)
    }
}

/// Index of the exponent mark `e` or `E`, or the length when there is none.
pub open spec fn exponent_at(s: Seq<char>) -> nat {
    exp_from(s, 0)
}

/// The end of the integer digits: the first `.` or the exponent mark.
pub open spec fn integer_end(s: Seq<char>) -> nat {
    if first_dot(s) < exponent_at(s) {
        first_dot(s)
    } else {
        exponent_at(s)
    }
}

/// The digits between the sign and the first `.` or the exponent mark.
pub open spec fn integer_digits(s: Seq<char>) -> Seq<char> {
    s.subrange(sign_len(s) as int, integer_end(s) as int)
}

/// The characters between the first `.` and the exponent mark.
pub open spec fn fraction_digits(s: Seq<char>) -> Seq<char> {
    if first_dot(s) < exponent_at(s) {
        s.subrange(first_dot(s) + 1int, exponent_at(s) as int)
    } else {
        Seq::empty()
    }
}

/// The characters after the exponent mark.
pub open spec fn exponent_text(s: Seq<char>) -> Seq<char> {
    if exponent_at(s) < s.len() {
        s.subrange(exponent_at(s) + 1int, s.len() as int)
    } else {
        Seq::empty()
    }
}

/// The digits of the exponent, after its sign.
pub open spec fn exponent_digits(s: Seq<char>) -> Seq<char> {
    unsigned_part(exponent_text(s))
}

/// There is no exponent, or it is a sign and at least one digit.
pub open spec fn exponent_valid(s: Seq<char>) -> bool {
    exponent_at(s) >= s.len() || (exponent_digits(s).len() > 0 && all_digits(exponent_digits(s)))
}

/// The power of ten that the exponent writes (zero without one).
pub open spec fn exponent_value(s: Seq<char>) -> int {
    if exponent_at(s) >= s.len() {
        0
    } else if is_negative(exponent_text(s)) {
        -digits_value(exponent_digits(s))
    } else {
        digits_value(exponent_digits(s)) as int
    }
}

/// `s` is a decimal number: an optional sign, digits, optionally a `.`
/// followed by digits, with at least one digit in all, and optionally an
/// exponent (`e` or `E`, an optional sign, digits).
pub open spec fn is_decimal(s: Seq<char>) -> bool {
    &&& all_digits(integer_digits(s))
    &&& all_digits(fraction_digits(s))
    &&& integer_digits(s).len() + fraction_digits(s).len() > 0
    &&& exponent_valid(s)
}

/// A fraction of at most two digits, in hundredths.
pub open spec fn fraction_hundredths(f: Seq<char>) -> nat {
    if f.len() == 1 {
        digits_value(f) * 10
    } else {
        digits_value(f)
    }
}

pub open spec fn pow10(n: nat) -> nat
    decreases n,
{
    if n == 0 {
        1
    } else {
        pow10((n - 1) as nat) * 10
    }
}

/// `v * 10^e`, rounded down.
pub open spec fn shift(v: nat, e: int) -> nat {
    if e >= 0 {
        v * pow10(e as nat)
    } else {
        v / pow10((-e) as nat)
    }
}

/// The absolute value of a decimal number of at most two decimals, times
/// 100 and rounded down.
pub open spec fn magnitude(s: Seq<char>) -> nat {
    shift(
        digits_value(integer_digits(s)) * 100 + fraction_hundredths(fraction_digits(s)),
        exponent_value(s),
    )
}

/// The value of a decimal number of at most two decimals, times 100 and
/// rounded toward zero.
pub open spec fn hundredths(s: Seq<char>) -> int {
    if is_negative(s) {
        -magnitude(s)
    } else {
        magnitude(s) as int
    }
}

/// `u` spells a word, each letter in lower or in upper case.
pub open spec fn word_matches(u: Seq<char>, lower: Seq<char>, upper: Seq<char>) -> bool {
    &&& u.len() == lower.len()
    &&& u.len() == upper.len()
    &&& forall|i: int| 0 <= i < u.len() ==> #[trigger] u[i] == lower[i] || u[i] == upper[i]
}

/// `s` without its sign.
pub open spec fn unsigned_part(s: Seq<char>) -> Seq<char> {
    s.subrange(sign_len(s) as int, s.len() as int)
}

/// `inf` or `infinity` in any case, after an optional sign.
pub open spec fn is_infinity(s: Seq<char>) -> bool {
    word_matches(unsigned_part(s), seq!['i', 'n', 'f'], seq!['I', 'N', 'F']) || word_matches(
        unsigned_part(s),
        seq!['i', 'n', 'f', 'i', 'n', 'i', 't', 'y'],
        seq!['I', 'N', 'F', 'I', 'N', 'I', 'T', 'Y'],
    )
}

/// `nan` in any case, after an optional sign.
pub open spec fn is_nan(s: Seq<char>) -> bool {
    word_matches(unsigned_part(s), seq!['n', 'a', 'n'], seq!['N', 'A', 'N'])
}

/// What parsing `s` as a percent gives: its value in hundredths of a
/// percent, or the first error that applies.
pub open spec fn parse_percent_spec(s: Seq<char>) -> Result<u64, ParseError> {
    if has_too_many_decimals(s) {
        Err(ParseError::TooManyDecimals)
    } else if is_nan(s) {
        Err(ParseError::TooLowPercent)
    } else if is_infinity(s) {
        if is_negative(s) {
            Err(ParseError::TooLowPercent)
        } else {
            Err(ParseError::TooHighPercent)
        }
    } else if !is_decimal(s) {
        Err(
            ParseError::InvalidNumber(
                if s.len() == 0 {
                    NumberErrorKind::Empty
                } else {
                    NumberErrorKind::Invalid
                },
            ),
        )
    } else if hundredths(s) < MIN_FEE_PERCENT {
        Err(ParseError::TooLowPercent)
    } else if hundredths(s) > MAX_FEE_PERCENT {
        Err(ParseError::TooHighPercent)
    } else {
        Ok(hundredths(s) as u64)
    }
}


proof fn lemma_dot_from(s: Seq<char>, i: nat)
    requires
        i <= s.len(),
    ensures
        i <= dot_from(s, i) <= s.len(),
        dot_from(s, i) < s.len() ==> s[dot_from(s, i) as int] == '.',
        forall|k: int| i <= k < dot_from(s, i) ==> s[k] != '.',
    decreases s.len() - i,
{
    if i < s.len() && s[i as int] != '.' {
        lemma_dot_from(s, i + 1);
    }
}

/// Saturating at the cap commutes with appending a digit.
proof fn lemma_capped_step(n: nat, d: nat, cap: nat)
    ensures
        min_nat(min_nat(n, cap) * 10 + d, cap) == min_nat(n * 10 + d, cap),
{
}

pub open spec fn min_nat(a: nat, b: nat) -> nat {
    if a <= b {
        a
    } else {
        b
    }
}

/// Digits are ASCII, one byte each.
proof fn lemma_digits_one_byte_each(d: Seq<char>)
    requires
        all_digits(d),
    ensures
        encode_utf8(d).len() == d.len(),
{
    assert(is_ascii_chars(d)) by {
        assert forall|i: int| 0 <= i < d.len() implies '\0' <= #[trigger] d[i] <= '\u{7f}' by {
            assert(is_digit(d[i]));
        }
    }
    is_ascii_chars_encode_utf8(d);
}

proof fn lemma_short_digits_bound(d: Seq<char>)
    requires
        all_digits(d),
        d.len() <= 2,
    ensures
        digits_value(d) < 100,
        d.len() <= 1 ==> digits_value(d) < 10,
{
    if d.len() == 1 {
        assert(digits_value(d.drop_last()) == 0);
    } else if d.len() == 2 {
        let p = d.drop_last();
        assert(p.last() == d[0]);
        assert(digits_value(p.drop_last()) == 0);
        assert(digits_value(p) == digit_value(d[0]));
        assert(digits_value(d) == digits_value(p) * 10 + digit_value(d[1]));
    }
}

/// The value of a decimal digit character, or `None` for any other character.
fn digit_of(c: char) -> (r: Option<u64>)
    ensures
        r.is_some() == is_digit(c),
        r matches Some(v) ==> v == digit_value(c),
{
    match c {
        '0' => Some(0),
        '1' => Some(1),
        '2' => Some(2),
        '3' => Some(3),
        '4' => Some(4),
        '5' => Some(5),
        '6' => Some(6),
        '7' => Some(7),
        '8' => Some(8),
        '9' => Some(9),
        _ => None,
    }
}

/// Index of the first `.` in `s`, or its length `len` when there is none.
fn find_dot(s: &str, len: usize) -> (r: usize)
    requires
        len == s@.len(),
    ensures
        r == first_dot(s@),
{
    let mut i: usize = 0;
    while i < len
        invariant
            len == s@.len(),
            i <= len,
            dot_from(s@, i as nat) == first_dot(s@),
        decreases len - i,
    {
        if s.get_char(i) == '.' {
            return i;
        }
        i = i + 1;
    }
    i
}

/// Rejects a percent string with more than two characters after its first `.`.
pub fn validate_decimal_part(percent: &str) -> (r: Result<(), ParseError>)
    ensures
        r == (if has_too_many_decimals(percent@) {
            Err(ParseError::TooManyDecimals)
        } else {
            Ok(())
        }),
{
    let len = percent.unicode_len();
    let dot = find_dot(percent, len);
    if dot < len {
        proof {
            lemma_dot_from(percent@, 0);
        }
        let decimals = percent.substring_char(dot + 1, len);
        assert(decimals@ == decimal_part(percent@));
        let n = decimals.as_bytes().len();
        assert(n == encode_utf8(decimals@).len());
        if n > 2 {
            return Err(ParseError::TooManyDecimals);
        }
    } else {
        assert(encode_utf8(decimal_part(percent@)).len() == 0) by {
            assert(decimal_part(percent@) =~= Seq::<char>::empty());
            reveal_with_fuel(encode_utf8, 1);
        }
    }
    Ok(())
}

/// Reads `s[from..to]` as a run of decimal digits, saturating at `cap`;
/// `None` when a character in it is not a digit.
fn read_digits(s: &str, from: usize, to: usize, cap: u128) -> (r: Option<u128>)
    requires
        from <= to <= s@.len(),
        cap <= EXPONENT_CAP,
    ensures
        r.is_some() == all_digits(s@.subrange(from as int, to as int)),
        r matches Some(v) ==> v == min_nat(
            digits_value(s@.subrange(from as int, to as int)),
            cap as nat,
        ),
{
    let mut acc: u128 = 0;
    let mut i: usize = from;
    while i < to
        invariant
            from <= i <= to <= s@.len(),
            cap <= EXPONENT_CAP,
            all_digits(s@.subrange(from as int, i as int)),
            acc == min_nat(digits_value(s@.subrange(from as int, i as int)), cap as nat),
        decreases to - i,
    {
        let ghost prev = s@.subrange(from as int, i as int);
        let ghost next = s@.subrange(from as int, i + 1);
        assert(next.drop_last() =~= prev);
        let c = s.get_char(i);
        match digit_of(c) {
            Some(d) => {
                proof {
                    lemma_capped_step(digits_value(prev), d as nat, cap as nat);
                }
                let grown = acc * 10 + d as u128;
                acc = if grown > cap {
                    cap
                } else {
                    grown
                };
                i = i + 1;
            },
            None => {
                assert(s@.subrange(from as int, to as int)[i - from] == c);
                return None;
            },
        }
    }
    Some(acc)
}

/// Index of the first `e` or `E` in `s`, or its length `len` when there is none.
fn find_exponent(s: &str, len: usize) -> (r: usize)
    requires
        len == s@.len(),
    ensures
        r == exponent_at(s@),
{
    let mut i: usize = 0;
    while i < len
        invariant
            len == s@.len(),
            i <= len,
            exp_from(s@, i as nat) == exponent_at(s@),
        decreases len - i,
    {
        let c = s.get_char(i);
        if c == 'e' || c == 'E' {
            return i;
        }
        i = i + 1;
    }
    i
}

/// The digits of a number's integer part, then of its fraction padded
/// with zeros to two places: the number times 100, as digits.
pub open spec fn hundredths_digits(s: Seq<char>) -> Seq<char> {
    integer_digits(s) + fraction_digits(s) + Seq::new(
        (2 - fraction_digits(s).len()) as nat,
        |i: int| '0',
    )
}

/// Reads the first `n` characters of `hundredths_digits(s@)`, saturating at
/// `DIGITS_CAP`. The integer digits are `s[start..start + int_len]`, the
/// fraction digits `s[frac_from..frac_from + frac_len]`.
fn read_hundredths(
    s: &str,
    start: usize,
    int_len: usize,
    frac_from: usize,
    frac_len: usize,
    n: u128,
) -> (r: u128)
    requires
        s@.len() <= usize::MAX,
        start + int_len <= s@.len(),
        frac_from + frac_len <= s@.len(),
        frac_len <= 2,
        integer_digits(s@) == s@.subrange(start as int, start + int_len),
        fraction_digits(s@) == s@.subrange(frac_from as int, frac_from + frac_len),
        all_digits(integer_digits(s@)),
        all_digits(fraction_digits(s@)),
        n <= int_len + 2,
    ensures
        r == min_nat(
            digits_value(hundredths_digits(s@).subrange(0, n as int)),
            DIGITS_CAP as nat,
        ),
{
    let ghost p = hundredths_digits(s@);
    assert(p.len() == int_len + 2);
    let mut acc: u128 = 0;
    let mut i: u128 = 0;
    while i < n
        invariant
            i <= n <= int_len + 2,
            p == hundredths_digits(s@),
            p.len() == int_len + 2,
            s@.len() <= usize::MAX,
            start + int_len <= s@.len(),
            frac_from + frac_len <= s@.len(),
            frac_len <= 2,
            integer_digits(s@) == s@.subrange(start as int, start + int_len),
            fraction_digits(s@) == s@.subrange(frac_from as int, frac_from + frac_len),
            all_digits(integer_digits(s@)),
            all_digits(fraction_digits(s@)),
            acc == min_nat(digits_value(p.subrange(0, i as int)), DIGITS_CAP as nat),
        decreases n - i,
    {
        let c = if i < int_len as u128 {
            s.get_char(start + i as usize)
        } else if i - (int_len as u128) < frac_len as u128 {
            s.get_char(frac_from + (i - int_len as u128) as usize)
        } else {
            '0'
        };
        assert(p[i as int] == c);
        proof {
            if i < int_len {
                assert(is_digit(integer_digits(s@)[i as int]));
            } else if i - int_len < frac_len {
                assert(is_digit(fraction_digits(s@)[i - int_len]));
            }
        }
        let d = match digit_of(c) {
            Some(d) => d,
            None => 0,
        };
        assert(p.subrange(0, i + 1).drop_last() =~= p.subrange(0, i as int));
        proof {
            lemma_capped_step(digits_value(p.subrange(0, i as int)), d as nat, DIGITS_CAP as nat);
        }
        let grown = acc * 10 + d as u128;
        acc = if grown > DIGITS_CAP as u128 {
            DIGITS_CAP as u128
        } else {
            grown
        };
        i = i + 1;
    }
    acc
}

/// Whether `s[from..len]` spells the word given by `lower` and `upper`.
fn word_at(s: &str, from: usize, len: usize, lower: &str, upper: &str) -> (r: bool)
    requires
        from <= len == s@.len(),
        lower@.len() == upper@.len(),
    ensures
        r == word_matches(s@.subrange(from as int, len as int), lower@, upper@),
{
    let ghost u = s@.subrange(from as int, len as int);
    let n = lower.unicode_len();
    if len - from != n {
        return false;
    }
    let mut i: usize = 0;
    while i < n
        invariant
            from <= len == s@.len(),
            n == lower@.len() == upper@.len() == len - from,
            u == s@.subrange(from as int, len as int),
            i <= n,
            forall|j: int| 0 <= j < i ==> #[trigger] u[j] == lower@[j] || u[j] == upper@[j],
        decreases n - i,
    {
        let c = s.get_char(from + i);
        assert(u[i as int] == c);
        if c != lower.get_char(i) && c != upper.get_char(i) {
            return false;
        }
        i = i + 1;
    }
    true
}

proof fn lemma_exp_from(s: Seq<char>, i: nat)
    requires
        i <= s.len(),
    ensures
        i <= exp_from(s, i) <= s.len(),
        exp_from(s, i) < s.len() ==> (s[exp_from(s, i) as int] == 'e' || s[exp_from(s, i) as int]
            == 'E'),
        forall|k: int| i <= k < exp_from(s, i) ==> s[k] != 'e' && s[k] != 'E',
    decreases s.len() - i,
{
    if i < s.len() && s[i as int] != 'e' && s[i as int] != 'E' {
        lemma_exp_from(s, i + 1);
    }
}

proof fn lemma_pow10_mono(a: nat, b: nat)
    requires
        a <= b,
    ensures
        1 <= pow10(a) <= pow10(b),
    decreases b,
{
    if b > 0 {
        if a == b {
            lemma_pow10_mono(0, (b - 1) as nat);
        } else {
            lemma_pow10_mono(a, (b - 1) as nat);
        }
    }
}

proof fn lemma_digits_concat(a: Seq<char>, b: Seq<char>)
    ensures
        digits_value(a + b) == digits_value(a) * pow10(b.len()) + digits_value(b),
    decreases b.len(),
{
    if b.len() == 0 {
        assert(a + b =~= a);
        assert(digits_value(b) == 0);
        assert(pow10(0) == 1);
    } else {
        let b1 = b.drop_last();
        assert(pow10(b.len()) == pow10(b1.len()) * 10);
        assert((a + b).drop_last() =~= a + b1);
        assert((a + b).last() == b.last());
        lemma_digits_concat(a, b1);
        let x = digits_value(a);
        let y = pow10(b1.len());
        let z = digits_value(b1);
        assert((x * y + z) * 10 == x * (y * 10) + z * 10) by (nonlinear_arith);
    }
}

proof fn lemma_digits_below_pow10(b: Seq<char>)
    ensures
        digits_value(b) < pow10(b.len()),
    decreases b.len(),
{
    if b.len() > 0 {
        lemma_digits_below_pow10(b.drop_last());
    }
}

/// Dropping the last `p.len() - n` digits divides by that power of ten.
proof fn lemma_digits_truncate(p: Seq<char>, n: nat)
    requires
        n <= p.len(),
    ensures
        digits_value(p) / pow10((p.len() - n) as nat) == digits_value(p.subrange(0, n as int)),
{
    let a = p.subrange(0, n as int);
    let b = p.subrange(n as int, p.len() as int);
    assert(p =~= a + b);
    lemma_digits_concat(a, b);
    lemma_digits_below_pow10(b);
    lemma_pow10_mono(0, b.len());
    vstd::arithmetic::div_mod::lemma_fundamental_div_mod_converse_div(
        digits_value(p) as int,
        pow10(b.len()) as int,
        digits_value(a) as int,
        digits_value(b) as int,
    );
}

/// The encoding of a concatenation is the concatenation of the encodings.
proof fn lemma_encode_concat(a: Seq<char>, b: Seq<char>)
    ensures
        encode_utf8(a + b) == encode_utf8(a) + encode_utf8(b),
    decreases a.len(),
{
    if a.len() == 0 {
        assert(a + b =~= b);
        assert(encode_utf8(a) =~= Seq::<u8>::empty());
        assert(encode_utf8(a) + encode_utf8(b) =~= encode_utf8(b));
    } else {
        assert((a + b).drop_first() =~= a.drop_first() + b);
        assert((a + b)[0] == a[0]);
        lemma_encode_concat(a.drop_first(), b);
        assert(encode_utf8(a + b) =~= encode_utf8(a) + encode_utf8(b));
    }
}

proof fn lemma_hundredths_digits(s: Seq<char>)
    requires
        fraction_digits(s).len() <= 2,
    ensures
        digits_value(hundredths_digits(s)) == digits_value(integer_digits(s)) * 100
            + fraction_hundredths(fraction_digits(s)),
        hundredths_digits(s).len() == integer_digits(s).len() + 2,
{
    let f = fraction_digits(s);
    let q = f + Seq::new((2 - f.len()) as nat, |i: int| '0');
    assert(hundredths_digits(s) =~= integer_digits(s) + q);
    lemma_digits_concat(integer_digits(s), q);
    reveal_with_fuel(pow10, 3);
    assert(q.len() == 2);
    let q1 = q.drop_last();
    assert(q1.drop_last() =~= Seq::<char>::empty());
    assert(digits_value(q1.drop_last()) == 0);
    assert(digits_value(q1) == digit_value(q1.last()));
    if f.len() == 0 {
        assert(q1.last() == '0' && q.last() == '0');
    } else if f.len() == 1 {
        assert(f.drop_last() =~= Seq::<char>::empty());
        assert(q1.last() == f[0] && q.last() == '0');
    } else {
        assert(q =~= f);
        assert(f.drop_last() == q1);
    }
}

/// The magnitude of the number in `s`, saturating at `DIGITS_CAP`: its
/// digits times 100 (integer digits at `start`, fraction digits at
/// `frac_from`) shifted by the exponent `exp`, whose size saturates at
/// `EXPONENT_CAP` in `exp_mag`.
fn scaled_hundredths(
    percent: &str,
    start: usize,
    int_len: usize,
    frac_from: usize,
    frac_len: usize,
    exp_negative: bool,
    exp_mag: u128,
    exp: Ghost<int>,
) -> (r: u128)
    requires
        percent@.len() <= usize::MAX,
        start + int_len <= percent@.len(),
        frac_from + frac_len <= percent@.len(),
        frac_len <= 2,
        integer_digits(percent@) == percent@.subrange(start as int, start + int_len),
        fraction_digits(percent@) == percent@.subrange(frac_from as int, frac_from + frac_len),
        all_digits(integer_digits(percent@)),
        all_digits(fraction_digits(percent@)),
        exp_negative ==> exp@ <= 0 && exp_mag == min_nat((-exp@) as nat, EXPONENT_CAP as nat),
        !exp_negative ==> exp@ >= 0 && exp_mag == min_nat(exp@ as nat, EXPONENT_CAP as nat),
    ensures
        r == min_nat(
            shift(
                digits_value(integer_digits(percent@)) * 100 + fraction_hundredths(
                    fraction_digits(percent@),
                ),
                exp@,
            ),
            DIGITS_CAP as nat,
        ),
{
    let ghost s = percent@;
    let ghost exp = exp@;
    let ghost v0 = digits_value(integer_digits(s)) * 100 + fraction_hundredths(fraction_digits(s));
    proof {
        lemma_hundredths_digits(s);
    }
    let plen: u128 = int_len as u128 + 2;
    let mut scaled: u128;
    if !exp_negative {
        scaled = read_hundredths(percent, start, int_len, frac_from, frac_len, plen);
        assert(hundredths_digits(s).subrange(0, plen as int) =~= hundredths_digits(s));
        assert(pow10(0) == 1);
        assert(v0 * 1 == v0);
        let steps: u128 = if exp_mag > 4 {
            4
        } else {
            exp_mag
        };
        let mut k: u128 = 0;
        while k < steps
            invariant
                k <= steps <= 4,
                scaled == min_nat(v0 * pow10(k as nat), DIGITS_CAP as nat),
            decreases steps - k,
        {
            proof {
                lemma_capped_step(v0 * pow10(k as nat), 0, DIGITS_CAP as nat);
                assert(v0 * pow10(k as nat) * 10 == v0 * (pow10(k as nat) * 10)) by (nonlinear_arith);
            }
            let grown = scaled * 10;
            scaled = if grown > DIGITS_CAP as u128 {
                DIGITS_CAP as u128
            } else {
                grown
            };
            k = k + 1;
        }
        proof {
            let x = exp as nat;
            assert(k == steps);
            if x <= 4 {
                assert(steps == x);
            }
            if x > 4 {
                reveal_with_fuel(pow10, 5);
                lemma_pow10_mono(4, x);
                if v0 > 0 {
                    assert(v0 * pow10(4) >= pow10(4)) by (nonlinear_arith)
                        requires
                            v0 > 0,
                    ;
                    assert(v0 * pow10(x) >= v0 * pow10(4)) by (nonlinear_arith)
                        requires
                            pow10(x) >= pow10(4),
                    ;
                } else {
                    assert(v0 * pow10(x) == 0 && v0 * pow10(4) == 0) by (nonlinear_arith)
                        requires
                            v0 == 0,
                    ;
                }
                assert(scaled == min_nat(v0 * pow10(x), DIGITS_CAP as nat));
            }
        }
    } else {
        if exp_mag >= plen {
            scaled = 0;
            proof {
                lemma_digits_below_pow10(hundredths_digits(s));
                lemma_pow10_mono(plen as nat, (-exp) as nat);
                vstd::arithmetic::div_mod::lemma_basic_div(v0 as int, pow10((-exp) as nat) as int);
                assert(exp != 0);
            }
        } else {
            let keep: u128 = plen - exp_mag;
            scaled = read_hundredths(percent, start, int_len, frac_from, frac_len, keep);
            proof {
                lemma_digits_truncate(hundredths_digits(s), keep as nat);
                assert(exp_mag == -exp);
                assert(plen - keep == -exp);
                if exp == 0 {
                    assert(pow10(0) == 1);
                    assert(v0 / 1 == v0);
                    assert(v0 * 1 == v0);
                }
            }
        }
    }
    scaled
}

/// Parses a decimal percent string into hundredths of a percent.
///
/// The text is an optional sign and then `inf`, `infinity` or `nan` in any
/// case, or digits with optionally a `.` and at most two digits after it,
/// and an optional exponent; the value, truncated to hundredths, must lie
/// between 0.01 and 10.
#[verifier::rlimit(60)]
pub fn parse_percent(percent: &str) -> (r: Result<u64, ParseError>)
    ensures
        r == parse_percent_spec(percent@),
{
    match validate_decimal_part(percent) {
        Err(e) => {
            return Err(e);
        },
        Ok(()) => {},
    }
    let len = percent.unicode_len();
    let ghost s = percent@;
    proof {
        lemma_dot_from(s, 0);
        lemma_exp_from(s, 0);
    }
    let dot = find_dot(percent, len);
    let e = find_exponent(percent, len);
    let mut start: usize = 0;
    let mut negative = false;
    if len > 0 {
        let c0 = percent.get_char(0);
        if c0 == '+' || c0 == '-' {
            start = 1;
            negative = c0 == '-';
        }
    }
    proof {
        reveal_strlit("nan");
        reveal_strlit("NAN");
        reveal_strlit("inf");
        reveal_strlit("INF");
        reveal_strlit("infinity");
        reveal_strlit("INFINITY");
        assert("nan"@ =~= seq!['n', 'a', 'n']);
        assert("NAN"@ =~= seq!['N', 'A', 'N']);
        assert("inf"@ =~= seq!['i', 'n', 'f']);
        assert("INF"@ =~= seq!['I', 'N', 'F']);
        assert("infinity"@ =~= seq!['i', 'n', 'f', 'i', 'n', 'i', 't', 'y']);
        assert("INFINITY"@ =~= seq!['I', 'N', 'F', 'I', 'N', 'I', 'T', 'Y']);
        assert(unsigned_part(s) =~= s.subrange(start as int, len as int));
    }
    if word_at(percent, start, len, "nan", "NAN") {
        return Err(ParseError::TooLowPercent);
    }
    if word_at(percent, start, len, "inf", "INF") || word_at(
        percent,
        start,
        len,
        "infinity",
        "INFINITY",
    ) {
        return if negative {
            Err(ParseError::TooLowPercent)
        } else {
            Err(ParseError::TooHighPercent)
        };
    }
    let invalid = ParseError::InvalidNumber(
        if len == 0 {
            NumberErrorKind::Empty
        } else {
            NumberErrorKind::Invalid
        },
    );
    let int_end: usize = if dot < e {
        dot
    } else {
        e
    };
    let frac_from: usize = if dot < e {
        dot + 1
    } else {
        e
    };
    let int_len: usize = int_end - start;
    let frac_len: usize = e - frac_from;
    proof {
        assert(integer_digits(s) =~= s.subrange(start as int, int_end as int));
        assert(fraction_digits(s) =~= s.subrange(frac_from as int, e as int));
    }
    let int_ok = read_digits(percent, start, int_end, 1);
    let frac_ok = read_digits(percent, frac_from, e, 1);
    if int_ok.is_none() || frac_ok.is_none() || int_len + frac_len == 0 {
        return Err(invalid);
    }
    proof {
        lemma_digits_one_byte_each(fraction_digits(s));
        if dot < e {
            let rest = s.subrange(e as int, len as int);
            assert(decimal_part(s) =~= fraction_digits(s) + rest);
            lemma_encode_concat(fraction_digits(s), rest);
        }
    }
    let mut exp_negative = false;
    let mut exp_mag: u128 = 0;
    if e < len {
        let mut es: usize = e + 1;
        if es < len {
            let c = percent.get_char(es);
            if c == '+' || c == '-' {
                exp_negative = c == '-';
                es = es + 1;
            }
        }
        proof {
            let t = exponent_text(s);
            assert(t =~= s.subrange(e + 1, len as int));
            assert(exponent_digits(s) =~= s.subrange(es as int, len as int));
            assert(exp_negative == is_negative(t));
        }
        if es == len {
            return Err(invalid);
        }
        match read_digits(percent, es, len, EXPONENT_CAP) {
            None => {
                return Err(invalid);
            },
            Some(v) => {
                exp_mag = v;
            },
        }
    }
    let ghost v0 = digits_value(integer_digits(s)) * 100 + fraction_hundredths(fraction_digits(s));
    let ghost ev = digits_value(exponent_digits(s));
    proof {
        lemma_hundredths_digits(s);
        lemma_short_digits_bound(fraction_digits(s));
        assert(e < len ==> exp_mag == min_nat(ev, EXPONENT_CAP as nat));
        assert(e >= len ==> exponent_value(s) == 0);
        assert(e < len && exp_negative ==> exponent_value(s) == -ev);
        assert(e < len && !exp_negative ==> exponent_value(s) == ev);
    }
    let scaled = scaled_hundredths(
        percent,
        start,
        int_len,
        frac_from,
        frac_len,
        exp_negative,
        exp_mag,
        Ghost(exponent_value(s)),
    );
    assert(scaled == min_nat(magnitude(s), DIGITS_CAP as nat));
    if negative || scaled < MIN_FEE_PERCENT as u128 {
        Err(ParseError::TooLowPercent)
    } else if scaled > MAX_FEE_PERCENT as u128 {
        Err(ParseError::TooHighPercent)
    } else {
        Ok(scaled as u64)
    }
}

/// The decimal digits of `n`, without leading zeros.
pub open spec fn decimal_chars(n: nat) -> Seq<char>
    decreases n,
{
    if n < 10 {
        seq![digit_char(n)]
    } else {
        decimal_chars(n / 10).push(digit_char(n % 10))
    }
}

/// A percent in hundredths written with exactly two decimals (`750` is `"7.50"`).
pub open spec fn format_percent_spec(p: nat) -> Seq<char> {
    decimal_chars(p / 100) + seq!['.', digit_char((p % 100) / 10), digit_char(p % 10)]
}

/// The one-character string of a decimal digit.
fn digit_str(d: u64) -> (r: &'static str)
    requires
        d < 10,
    ensures
        r@ == seq![digit_char(d as nat)],
{
    proof {
        reveal_strlit("0");
        reveal_strlit("1");
        reveal_strlit("2");
        reveal_strlit("3");
        reveal_strlit("4");
        reveal_strlit("5");
        reveal_strlit("6");
        reveal_strlit("7");
        reveal_strlit("8");
        reveal_strlit("9");
    }
    let r = match d {
        0 => "0",
        1 => "1",
        2 => "2",
        3 => "3",
        4 => "4",
        5 => "5",
        6 => "6",
        7 => "7",
        8 => "8",
        _ => "9",
    };
    assert(r@ =~= seq![digit_char(d as nat)]);
    r
}

/// Appends the decimal digits of `n` to `out`.
fn push_decimal(out: &mut String, n: u64)
    ensures
        final(out)@ == old(out)@ + decimal_chars(n as nat),
    decreases n,
{
    if n >= 10 {
        push_decimal(out, n / 10);
    }
    out.append(digit_str(n % 10));
    assert(out@ =~= old(out)@ + decimal_chars(n as nat));
}

/// Writes a percent in hundredths with exactly two decimals (`500` gives `"5.00"`).
pub fn format_percent(p: u64) -> (r: String)
    ensures
        r@ == format_percent_spec(p as nat),
{
    let mut out = String::new();
    push_decimal(&mut out, p / 100);
    proof {
        reveal_strlit(".");
    }
    out.append(".");
    out.append(digit_str((p % 100) / 10));
    out.append(digit_str(p % 10));
    assert(out@ =~= format_percent_spec(p as nat));
    out
}


/// A fraction of at most two digits padded with zeros to exactly two.
pub open spec fn two_decimals(f: Seq<char>) -> Seq<char> {
    if f.len() == 0 {
        seq!['0', '0']
    } else if f.len() == 1 {
        f.push('0')
    } else {
        f
    }
}

proof fn lemma_digit_char(d: nat)
    requires
        d < 10,
    ensures
        is_digit(digit_char(d)),
        digit_value(digit_char(d)) == d,
{
}

proof fn lemma_digit_value(c: char)
    requires
        is_digit(c),
    ensures
        digit_value(c) < 10,
        digit_char(digit_value(c)) == c,
{
}

proof fn lemma_decimal_chars(n: nat)
    ensures
        decimal_chars(n).len() >= 1,
        all_digits(decimal_chars(n)),
        digits_value(decimal_chars(n)) == n,
    decreases n,
{
    if n < 10 {
        lemma_digit_char(n);
        let d = decimal_chars(n);
        assert(d.drop_last() =~= Seq::<char>::empty());
        assert(digits_value(d.drop_last()) == 0);
        assert(d.last() == digit_char(n));
    } else {
        lemma_decimal_chars(n / 10);
        lemma_digit_char(n % 10);
        let d = decimal_chars(n);
        assert(d.drop_last() =~= decimal_chars(n / 10));
        assert(d.last() == digit_char(n % 10));
        assert(digits_value(d) == (n / 10) * 10 + n % 10);
        assert forall|i: int| 0 <= i < d.len() implies is_digit(#[trigger] d[i]) by {
            if i < d.len() - 1 {
                assert(d[i] == decimal_chars(n / 10)[i]);
            }
        }
    }
}

/// The first `.` of `d + ['.'] + t` is the one after `d` when `d` is all
/// digits, and there is no exponent when `t` is all digits too.
proof fn lemma_first_dot_after_digits(d: Seq<char>, t: Seq<char>)
    requires
        all_digits(d),
        all_digits(t),
    ensures
        first_dot(d + seq!['.'] + t) == d.len(),
        exponent_at(d + seq!['.'] + t) == (d + seq!['.'] + t).len(),
{
    let s = d + seq!['.'] + t;
    lemma_dot_from(s, 0);
    lemma_exp_from(s, 0);
    let x = exponent_at(s) as int;
    if x < s.len() {
        if x < d.len() {
            assert(s[x] == d[x] && is_digit(d[x]));
        } else if x > d.len() {
            assert(s[x] == t[x - d.len() - 1] && is_digit(t[x - d.len() - 1]));
        }
    }
    let k = first_dot(s);
    if k < d.len() {
        assert(s[k as int] == d[k as int]);
        assert(is_digit(d[k as int]));
    } else if k > d.len() {
        assert(s[d.len() as int] == '.');
    }
}

/// Parsing the text that `format_percent` writes for a valid percent gives
/// that percent back.
pub proof fn lemma_parse_format_round_trip(p: u64)
    requires
        MIN_FEE_PERCENT <= p <= MAX_FEE_PERCENT,
    ensures
        parse_percent_spec(format_percent_spec(p as nat)) == Ok::<u64, ParseError>(p),
{
    let d = decimal_chars(p as nat / 100);
    let a = digit_char(((p % 100) / 10) as nat);
    let b = digit_char((p % 10) as nat);
    let s = format_percent_spec(p as nat);
    lemma_decimal_chars(p as nat / 100);
    lemma_digit_char(((p % 100) / 10) as nat);
    lemma_digit_char((p % 10) as nat);
    assert(s =~= d + seq!['.'] + seq![a, b]);
    assert(all_digits(seq![a, b]));
    lemma_first_dot_after_digits(d, seq![a, b]);
    assert(s[0] == d[0]);
    assert(is_digit(d[0]));
    assert(sign_len(s) == 0);
    assert(integer_digits(s) =~= d);
    let f = fraction_digits(s);
    assert(f =~= seq![a, b]);
    lemma_digits_one_byte_each(f);
    assert(f.drop_last() =~= seq![a]);
    assert(f.drop_last().drop_last() =~= Seq::<char>::empty());
    assert(digits_value(f.drop_last().drop_last()) == 0);
    assert(f.drop_last().last() == a);
    assert(digits_value(f.drop_last()) == digit_value(a));
    assert(digits_value(f) == digit_value(a) * 10 + digit_value(b));
    assert(digits_value(f) == ((p % 100) / 10) * 10 + p % 10);
    assert(!is_negative(s));
    assert(magnitude(s) == p);
}

/// A decimal number is neither an infinity nor a NaN: it starts, after its
/// sign, with a digit or a `.`.
proof fn lemma_decimal_is_no_word(s: Seq<char>)
    requires
        is_decimal(s),
    ensures
        !is_nan(s),
        !is_infinity(s),
{
    lemma_dot_from(s, 0);
    lemma_exp_from(s, 0);
    let u = unsigned_part(s);
    let k = sign_len(s) as int;
    if integer_end(s) > k {
        assert(u[0] == integer_digits(s)[0]);
        assert(is_digit(u[0]));
    } else {
        assert(first_dot(s) < s.len());
        assert(u[0] == '.');
    }
}

/// A decimal text without exponent, of at most two decimals, whose value lies between 0.01 and
/// 10 parses, and formatting the result writes the same number with
/// exactly two decimals: the integer part without leading zeros, then the
/// fraction padded with zeros.
pub proof fn lemma_format_normalizes(s: Seq<char>)
    requires
        !has_too_many_decimals(s),
        is_decimal(s),
        exponent_at(s) == s.len(),
        MIN_FEE_PERCENT <= hundredths(s) <= MAX_FEE_PERCENT,
    ensures
        parse_percent_spec(s) == Ok::<u64, ParseError>(hundredths(s) as u64),
        format_percent_spec(hundredths(s) as nat) == decimal_chars(
            digits_value(integer_digits(s)),
        ) + seq!['.'] + two_decimals(fraction_digits(s)),
{
    let iv = digits_value(integer_digits(s));
    let f = fraction_digits(s);
    let fh = fraction_hundredths(f);
    let h = hundredths(s) as nat;
    lemma_decimal_is_no_word(s);
    assert(decimal_part(s) == f);
    lemma_digits_one_byte_each(f);
    lemma_short_digits_bound(f);
    assert(pow10(0) == 1);
    assert(exponent_value(s) == 0);
    assert(magnitude(s) == (iv * 100 + fh) * 1);
    assert(h == iv * 100 + fh);
    assert(h / 100 == iv && h % 100 == fh) by (nonlinear_arith)
        requires
            h == iv * 100 + fh,
            fh < 100,
    ;
    let t = seq![digit_char(fh / 10), digit_char(fh % 10)];
    assert(format_percent_spec(h) =~= decimal_chars(iv) + seq!['.'] + t);
    if f.len() == 0 {
        assert(t =~= two_decimals(f));
    } else if f.len() == 1 {
        assert(f.drop_last() =~= Seq::<char>::empty());
        lemma_digit_value(f[0]);
        assert(t =~= two_decimals(f));
    } else {
        let g = f.drop_last();
        assert(g.drop_last() =~= Seq::<char>::empty());
        assert(g.last() == f[0]);
        assert(digits_value(g) == digit_value(f[0]));
        lemma_digit_value(f[0]);
        lemma_digit_value(f[1]);
        assert(fh == digit_value(f[0]) * 10 + digit_value(f[1]));
        assert(t =~= two_decimals(f));
    }
}

/// A text with more than two characters after its first `.` is rejected
/// for that reason, whatever else it holds.
pub proof fn lemma_too_many_decimals_rejected(s: Seq<char>)
    requires
        fraction_len(s) > 2,
    ensures
        parse_percent_spec(s) == Err::<u64, ParseError>(ParseError::TooManyDecimals),
{
}

} // verus!
