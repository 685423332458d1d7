//! Decimal numbers and other text that the file and wire formats are made of.
use vstd::prelude::*;
use vstd::string::*;
use vstd::utf8::*;

verus! {

/// The decimal digits of `n`, as ASCII, without leading zeros.
pub open spec fn digits(n: nat) -> Seq<u8>
    decreases n,
{
    if n < 10 {
        seq![(48 + n) as u8]
    } else {
        digits(n / 10).push((48 + n % 10) as u8)
    }
}

/// The decimal notation of `n`, as ASCII.
pub open spec fn decimal(n: int) -> Seq<u8> {
    if n < 0 {
        seq![45u8] + digits((-n) as nat)
    } else {
        digits(n as nat)
    }
}

pub open spec fn is_digit(b: u8) -> bool {
    48 <= b <= 57
}

/// One ASCII digit or more.
pub open spec fn all_digits(s: Seq<u8>) -> bool {
    &&& s.len() > 0
    &&& forall|i: int| 0 <= i < s.len() ==> is_digit(#[trigger] s[i])
}

/// The number that a string of ASCII digits denotes.
pub open spec fn digits_value(s: Seq<u8>) -> nat
    decreases s.len(),
{
    if s.len() == 0 {
        0
    } else {
        (digits_value(s.drop_last()) * 10 + (s.last() - 48)) as nat
    }
}

/// Digits without a leading zero, or the single digit zero.
pub open spec fn canonical_digits(s: Seq<u8>) -> bool {
    &&& all_digits(s)
    &&& s.len() > 1 ==> s[0] != 48
}

/// Decimal notation without leading zeros, plus sign or negative zero.
pub open spec fn canonical_decimal(s: Seq<u8>) -> bool {
    ||| canonical_digits(s)
    ||| s.len() > 1 && s[0] == 45 && canonical_digits(s.drop_first()) && s[1] != 48
}

/// The number that a decimal notation denotes.
pub open spec fn decimal_value(s: Seq<u8>) -> int {
    if s.len() > 0 && s[0] == 45 {
        -(digits_value(s.drop_first()) as int)
    } else {
        digits_value(s) as int
    }
}

/// Every number's digits are canonical and denote it.
pub proof fn lemma_digits_value(n: nat)
    ensures
        canonical_digits(digits(n)),
        digits_value(digits(n)) == n,
        n > 0 ==> digits(n)[0] != 48,
    decreases n,
{
    if n < 10 {
        reveal_with_fuel(digits_value, 2);
        assert(digits(n).drop_last() =~= Seq::<u8>::empty());
    } else {
        lemma_digits_value(n / 10);
        assert(digits(n).drop_last() =~= digits(n / 10));
    }
}

/// Canonical digits are the digits of the number that they denote.
pub proof fn lemma_value_digits(s: Seq<u8>)
    requires
        canonical_digits(s),
    ensures
        digits(digits_value(s)) == s,
        s.len() > 1 ==> digits_value(s) >= 10,
        s[0] != 48 ==> digits_value(s) > 0,
    decreases s.len(),
{
    let front = s.drop_last();
    if s.len() == 1 {
        assert(front =~= Seq::<u8>::empty());
        assert(digits_value(front) == 0);
        assert(digits_value(s) == s[0] - 48);
        assert(digits(digits_value(s)) =~= s);
    } else {
        assert(all_digits(front)) by {
            assert forall|i: int| 0 <= i < front.len() implies is_digit(#[trigger] front[i]) by {
                assert(front[i] == s[i]);
            }
        }
        lemma_value_digits(front);
        assert(front[0] == s[0]);
        assert(is_digit(s[s.len() - 1]));
        let v = digits_value(s);
        assert(v / 10 == digits_value(front) && v % 10 == s.last() - 48);
        assert(digits(v) =~= s);
    }
}

/// Every number's decimal notation is canonical and denotes it.
pub proof fn lemma_decimal_value(n: int)
    ensures
        canonical_decimal(decimal(n)),
        decimal_value(decimal(n)) == n,
{
    if n < 0 {
        lemma_digits_value((-n) as nat);
        assert(decimal(n).drop_first() =~= digits((-n) as nat));
    } else {
        lemma_digits_value(n as nat);
        assert(is_digit(digits(n as nat)[0]));
    }
}

/// A canonical decimal notation is the notation of the number that it denotes.
pub proof fn lemma_value_decimal(s: Seq<u8>)
    requires
        canonical_decimal(s),
    ensures
        decimal(decimal_value(s)) == s,
{
    if canonical_digits(s) {
        assert(is_digit(s[0]));
        lemma_value_digits(s);
    } else {
        lemma_value_digits(s.drop_first());
        assert(decimal(decimal_value(s)) =~= s);
    }
}

/// A digit counts ten times as much as the one behind it: the first of them is
/// worth a power of ten.
pub proof fn law_first_digit_weighs_most(s: Seq<u8>)
    requires
        s.len() > 0,
        all_digits(s),
    ensures
        digits_value(s) == (s[0] - 48) * vstd::arithmetic::power::pow(10, (s.len() - 1) as nat)
            + digits_value(s.drop_first()),
    decreases s.len(),
{
    assert(is_digit(s[0]));
    if s.len() == 1 {
        vstd::arithmetic::power::lemma_pow0(10);
        assert(s.drop_first() =~= Seq::<u8>::empty());
        assert(s.drop_last() =~= Seq::<u8>::empty());
    } else {
        let front = s.drop_last();
        assert forall|i: int| 0 <= i < front.len() implies is_digit(#[trigger] front[i]) by {
            assert(is_digit(s[i]));
        }
        law_first_digit_weighs_most(front);
        let tail = s.drop_first();
        assert(tail.drop_last() =~= front.drop_first());
        assert(tail.last() == s.last());
        assert(is_digit(s[s.len() - 1]));
        let n = (s.len() - 2) as nat;
        let p = vstd::arithmetic::power::pow(10, n);
        vstd::arithmetic::power::lemma_pow_adds(10, 1, n);
        vstd::arithmetic::power::lemma_pow1(10);
        assert(vstd::arithmetic::power::pow(10, (s.len() - 1) as nat) == 10 * p);
        let a = s[0] - 48;
        assert((a * p) * 10 == a * (10 * p)) by (nonlinear_arith);
        assert(is_digit(tail.last()));
    }
}

/// Only the ten digits are digits, and a number has as many of them as it needs:
/// none stands in front in vain. A negative number has a minus sign in front.
pub proof fn law_decimal(n: nat, i: int)
    ensures
        digits_value(digits(n)) == n,
        0 <= i < digits(n).len() ==> 48 <= digits(n)[i] <= 57,
        digits(n).len() > 1 ==> digits(n)[0] != 48,
        decimal(n as int) == digits(n),
        n > 0 ==> decimal(-(n as int)) == seq![45u8] + digits(n),
{
    lemma_digits_value(n);
    if 0 <= i < digits(n).len() {
        assert(is_digit(digits(n)[i]));
    }
}

/// Bytes are a decimal notation exactly where they are how a number is written.
pub proof fn law_canonical(s: Seq<u8>)
    ensures
        canonical_decimal(s) <==> exists|n: int| s == #[trigger] decimal(n),
        canonical_digits(s) <==> exists|n: nat| s == #[trigger] digits(n),
{
    if canonical_decimal(s) {
        lemma_value_decimal(s);
    }
    if canonical_digits(s) {
        lemma_value_digits(s);
    }
    if exists|n: int| s == #[trigger] decimal(n) {
        let n = choose|n: int| s == #[trigger] decimal(n);
        lemma_decimal_value(n);
    }
    if exists|n: nat| s == #[trigger] digits(n) {
        let n = choose|n: nat| s == #[trigger] digits(n);
        lemma_digits_value(n);
    }
}

/// The decimal digits of `n`.
pub fn digit_bytes(n: u64) -> (out: Vec<u8>)
    ensures
        out@ == digits(n as nat),
    decreases n,
{
    if n < 10 {
        let mut out: Vec<u8> = Vec::new();
        out.push(48 + n as u8);
        assert(out@ =~= digits(n as nat));
        out
    } else {
        let mut out = digit_bytes(n / 10);
        out.push(48 + (n % 10) as u8);
        out
    }
}

/// The decimal notation of `n`.
pub fn decimal_bytes(n: i64) -> (out: Vec<u8>)
    ensures
        out@ == decimal(n as int),
{
    if n < 0 {
        let magnitude: u64 = if n == i64::MIN {
            9223372036854775808
        } else {
            (-n) as u64
        };
        let mut out: Vec<u8> = Vec::new();
        out.push(45);
        let mut tail = digit_bytes(magnitude);
        out.append(&mut tail);
        assert(out@ =~= decimal(n as int));
        out
    } else {
        digit_bytes(n as u64)
    }
}

/// More digits denote no smaller a number.
proof fn lemma_value_take(s: Seq<u8>, n: int)
    requires
        all_digits(s),
        0 <= n <= s.len(),
    ensures
        digits_value(s.take(n)) <= digits_value(s),
    decreases s.len() - n,
{
    if n == s.len() {
        assert(s.take(n) =~= s);
    } else {
        lemma_value_take(s, n + 1);
        assert(s.take(n + 1).drop_last() =~= s.take(n));
        assert(is_digit(s[n]));
        assert(s.take(n + 1).last() == s[n]);
    }
}

/// The number that a string of ASCII digits denotes, if it fits.
pub fn parse_digits(s: &[u8]) -> (out: Option<u64>)
    ensures
        out is Some <==> all_digits(s@) && digits_value(s@) <= u64::MAX,
        out matches Some(n) ==> n == digits_value(s@),
{
    if s.len() == 0 {
        return None;
    }
    let mut value: u64 = 0;
    let mut fits: bool = true;
    let mut i: usize = 0;
    assert(s@.take(0) =~= Seq::<u8>::empty());
    while i < s.len()
        invariant
            i <= s@.len(),
            forall|j: int| 0 <= j < i ==> is_digit(#[trigger] s@[j]),
            fits ==> value == digits_value(s@.take(i as int)),
            !fits ==> digits_value(s@.take(i as int)) > u64::MAX,
        decreases s@.len() - i,
    {
        let b = s[i];
        if b < 48 || b > 57 {
            assert(!is_digit(s@[i as int]));
            return None;
        }
        let digit: u64 = (b - 48) as u64;
        assert(s@.take(i + 1).drop_last() =~= s@.take(i as int));
        assert(s@.take(i + 1).last() == b);
        if fits {
            if value > (u64::MAX - digit) / 10 {
                fits = false;
            } else {
                value = value * 10 + digit;
            }
        }
        i = i + 1;
    }
    assert(s@.take(i as int) =~= s@);
    if fits {
        Some(value)
    } else {
        None
    }
}

/// The number that a canonical string of ASCII digits denotes, if it fits.
pub fn parse_length(s: &[u8]) -> (out: Option<usize>)
    ensures
        out is Some <==> canonical_digits(s@) && digits_value(s@) <= usize::MAX,
        out matches Some(n) ==> n == digits_value(s@),
{
    if s.len() > 1 && s[0] == 48 {
        return None;
    }
    match parse_digits(s) {
        Some(n) => if n <= usize::MAX as u64 {
            Some(n as usize)
        } else {
            None
        },
        None => None,
    }
}

/// The number that a canonical decimal notation denotes, if it fits.
pub fn parse_integer(s: &[u8]) -> (out: Option<i64>)
    ensures
        out is Some <==> canonical_decimal(s@) && i64::MIN <= decimal_value(s@) <= i64::MAX,
        out matches Some(n) ==> n == decimal_value(s@),
{
    if s.len() > 0 && s[0] == 45 {
        assert(!canonical_digits(s@)) by {
            assert(!is_digit(s@[0]));
        }
        if s.len() == 1 || s[1] == 48 {
            return None;
        }
        let tail = vstd::slice::slice_subrange(s, 1, s.len());
        assert(tail@ =~= s@.drop_first());
        match parse_digits(tail) {
            Some(n) => if n < 9223372036854775808 {
                Some(-(n as i64))
            } else if n == 9223372036854775808 {
                Some(i64::MIN)
            } else {
                None
            },
            None => None,
        }
    } else {
        if s.len() > 1 && s[0] == 48 {
            return None;
        }
        match parse_digits(s) {
            Some(n) => if n <= i64::MAX as u64 {
                Some(n as i64)
            } else {
                None
            },
            None => None,
        }
    }
}

/// The text that `bytes` encode, by `std::str::from_utf8`: there is one exactly
/// where the bytes are valid UTF-8, and its UTF-8 encoding is the bytes.
#[verifier::external_body]
pub(crate) fn utf8_text(bytes: &[u8]) -> (out: Option<&str>)
    ensures
        out is Some <==> valid_utf8(bytes@),
        out matches Some(text) ==> text.spec_bytes() == bytes@,
{
    std::str::from_utf8(bytes).ok()
}

/// ASCII bytes as characters.
pub open spec fn ascii_chars(bytes: Seq<u8>) -> Seq<char> {
    Seq::new(bytes.len(), |i: int| bytes[i] as char)
}

/// ASCII bytes are characters one by one, each with the number of its byte.
pub proof fn law_ascii_chars(bytes: Seq<u8>, i: int)
    ensures
        ascii_chars(bytes).len() == bytes.len(),
        0 <= i < bytes.len() ==> ascii_chars(bytes)[i] as u32 == bytes[i],
{
}

/// ASCII bytes are valid UTF-8 and decode one by one.
pub proof fn lemma_ascii_utf8(bytes: Seq<u8>)
    requires
        forall|i: int| 0 <= i < bytes.len() ==> #[trigger] bytes[i] < 128,
    ensures
        valid_utf8(bytes),
        decode_utf8(bytes) == ascii_chars(bytes),
{
    let chars = ascii_chars(bytes);
    assert(is_ascii_chars(chars));
    is_ascii_chars_encode_utf8(chars);
    assert(encode_utf8(chars) =~= bytes) by {
        assert forall|i: int| 0 <= i < bytes.len() implies encode_utf8(chars)[i] == bytes[i] by {
            assert(chars[i] as u8 == bytes[i]);
        }
    }
    encode_utf8_valid_utf8(chars);
    encode_utf8_decode_utf8(chars);
}

/// The text that `bytes` encode, where they are valid UTF-8.
pub fn decoded_text(bytes: &[u8]) -> (out: Option<&str>)
    ensures
        out is Some <==> valid_utf8(bytes@),
        out matches Some(text) ==> text@ == decode_utf8(bytes@),
{
    let out = utf8_text(bytes);
    proof {
        if let Some(text) = out {
            encode_utf8_decode_utf8(text@);
        }
    }
    out
}

/// ASCII bytes as text.
pub(crate) fn ascii_text(bytes: &[u8]) -> (out: String)
    requires
        forall|i: int| 0 <= i < bytes@.len() ==> #[trigger] bytes@[i] < 128,
    ensures
        out@ == ascii_chars(bytes@),
{
    proof {
        lemma_ascii_utf8(bytes@);
    }
    match decoded_text(bytes) {
        Some(text) => text.to_string(),
        None => String::new(),
    }
}

/// A number as text, in decimal notation.
pub fn number_text(n: u64) -> (out: String)
    ensures
        out@ == ascii_chars(digits(n as nat)),
{
    let bytes = digit_bytes(n);
    proof {
        lemma_digits_value(n as nat);
        assert forall|i: int| 0 <= i < bytes@.len() implies #[trigger] bytes@[i] < 128 by {
            assert(is_digit(bytes@[i]));
        }
    }
    ascii_text(bytes.as_slice())
}

/// A signed number as text, in decimal notation.
pub fn integer_text(n: i64) -> (out: String)
    ensures
        out@ == ascii_chars(decimal(n as int)),
{
    let bytes = decimal_bytes(n);
    proof {
        lemma_decimal_value(n as int);
        assert forall|i: int| 0 <= i < bytes@.len() implies #[trigger] bytes@[i] < 128 by {
            if canonical_digits(bytes@) {
                assert(is_digit(bytes@[i]));
            } else if i > 0 {
                assert(is_digit(bytes@.drop_first()[i - 1]));
            }
        }
    }
    ascii_text(bytes.as_slice())
}

/// The two texts, one after the other.
pub(crate) fn joined(first: &str, second: &str) -> (out: String)
    ensures
        out@ == first@ + second@,
{
    let mut out = first.to_string();
    out.append(second);
    out
}

} // verus!
