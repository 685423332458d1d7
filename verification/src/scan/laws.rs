//! What holds of every text that is scanned.
use vstd::prelude::*;
use vstd::utf8::*;

use crate::scan;
use crate::text;

verus! {

/// A character is found where it stands first, and nowhere where it does not
/// occur.
pub proof fn law_found_first(s: Seq<char>, c: char, p: int)
    ensures
        scan::first_of(s, c) == p <==> {
            &&& 0 <= p <= s.len()
            &&& p < s.len() ==> s[p] == c
            &&& forall|i: int| 0 <= i < p ==> #[trigger] s[i] != c
        },
    decreases s.len(),
{
    let q = scan::first_of(s, c);
    lemma_before_first(s, c);
    scan::lemma_first_of_found(s, c);
    if 0 <= p <= s.len() && (p < s.len() ==> s[p] == c) && (forall|i: int|
        0 <= i < p ==> #[trigger] s[i] != c) {
        scan::lemma_first_of(s, c, p);
    }
}

proof fn lemma_before_first(s: Seq<char>, c: char)
    ensures
        forall|i: int| 0 <= i < scan::first_of(s, c) ==> #[trigger] s[i] != c,
    decreases s.len(),
{
    if s.len() > 0 && s[0] != c {
        lemma_before_first(s.skip(1), c);
        scan::lemma_first_of_found(s, c);
        assert forall|i: int| 0 <= i < scan::first_of(s, c) implies #[trigger] s[i] != c by {
            if i > 0 {
                assert(s.skip(1)[i - 1] != c);
            }
        }
    }
}

/// Two texts with a separator between them are split into the parts of the one
/// and the parts of the other; and a text without separators is one part.
pub proof fn law_split_between(a: Seq<char>, b: Seq<char>, c: char)
    ensures
        scan::split(a.push(c) + b, c) == scan::split(a, c) + scan::split(b, c),
        (forall|i: int| 0 <= i < a.len() ==> #[trigger] a[i] != c) ==> scan::split(a, c) == seq![a],
    decreases a.len(),
{
    let s = a.push(c) + b;
    let p = scan::first_of(a, c);
    lemma_before_first(a, c);
    scan::lemma_first_of_found(a, c);
    assert forall|i: int| 0 <= i < p implies #[trigger] s[i] != c by {
        assert(a[i] != c);
    }
    if p < a.len() {
        assert(s[p] == c);
        scan::lemma_first_of(s, c, p);
        law_split_between(a.skip(p + 1), b, c);
        assert(s.skip(p + 1) =~= a.skip(p + 1).push(c) + b);
        assert(s.take(p) =~= a.take(p));
        assert(scan::split(s, c) =~= scan::split(a, c) + scan::split(b, c));
        assert(a[p] == c);
    } else {
        assert(s[p] == c);
        scan::lemma_first_of(s, c, p);
        assert(s.take(p) =~= a);
        assert(s.skip(p + 1) =~= b);
    }
}

/// The parts of a text hold no separator.
pub proof fn law_parts_plain(s: Seq<char>, c: char, k: int)
    requires
        0 <= k < scan::split(s, c).len(),
    ensures
        !scan::split(s, c)[k].contains(c),
    decreases s.len(),
{
    let p = scan::first_of(s, c);
    lemma_before_first(s, c);
    scan::lemma_first_of_found(s, c);
    if p < s.len() {
        if k == 0 {
            assert forall|i: int| 0 <= i < p implies #[trigger] s.take(p)[i] != c by {
                assert(s[i] != c);
            }
        } else {
            law_parts_plain(s.skip(p + 1), c, k - 1);
            assert(scan::split(s, c)[k] == scan::split(s.skip(p + 1), c)[k - 1]);
        }
    } else {
        assert forall|i: int| 0 <= i < s.len() implies #[trigger] s[i] != c by {}
    }
}

/// The characters that are white space, by their numbers.
pub open spec fn white_numbers() -> Seq<int> {
    seq![
        9, 10, 11, 12, 13, 32, 133, 160, 5760, 8192, 8193, 8194, 8195, 8196, 8197, 8198, 8199, 8200,
        8201, 8202, 8232, 8233, 8239, 8287, 12288,
    ]
}

/// White space is what Unicode says it is, and nothing else.
pub proof fn law_white_space(c: char)
    ensures
        scan::is_white(c) <==> white_numbers().contains(c as u32 as int),
{
    let w = white_numbers();
    let n = c as u32 as int;
    if scan::is_white(c) {
        let k = if n <= 13 {
            n - 9
        } else if n == 32 {
            5
        } else if n == 133 {
            6
        } else if n == 160 {
            7
        } else if n == 5760 {
            8
        } else if n <= 8202 {
            n - 8192 + 9
        } else if n == 8232 {
            20
        } else if n == 8233 {
            21
        } else if n == 8239 {
            22
        } else if n == 8287 {
            23
        } else {
            24
        };
        assert(w[k] == n);
    }
}

/// White space is taken away at both ends, all of it and nothing else: what is
/// left is the text from `i` to `j`.
pub proof fn law_trimmed(s: Seq<char>) -> (ends: (int, int))
    ensures
        0 <= ends.0 <= ends.1 <= s.len(),
        scan::trimmed(s) == s.subrange(ends.0, ends.1),
        forall|k: int| 0 <= k < ends.0 ==> scan::is_white(#[trigger] s[k]),
        forall|k: int| ends.1 <= k < s.len() ==> scan::is_white(#[trigger] s[k]),
        ends.0 < ends.1 ==> !scan::is_white(s[ends.0]) && !scan::is_white(s[ends.1 - 1]),
    decreases s.len(),
{
    if s.len() > 0 && scan::is_white(s[0]) {
        let (i, j) = law_trimmed(s.skip(1));
        assert(s.skip(1).subrange(i, j) =~= s.subrange(i + 1, j + 1));
        assert forall|k: int| 0 <= k < i + 1 implies scan::is_white(#[trigger] s[k]) by {
            if k > 0 {
                assert(scan::is_white(s.skip(1)[k - 1]));
            }
        }
        assert forall|k: int| j + 1 <= k < s.len() implies scan::is_white(#[trigger] s[k]) by {
            assert(scan::is_white(s.skip(1)[k - 1]));
        }
        if i < j {
            assert(s.skip(1)[i] == s[i + 1] && s.skip(1)[j - 1] == s[j]);
        }
        (i + 1, j + 1)
    } else if s.len() > 0 && scan::is_white(s.last()) {
        let (i, j) = law_trimmed(s.drop_last());
        assert(s.drop_last().subrange(i, j) =~= s.subrange(i, j));
        assert forall|k: int| 0 <= k < i implies scan::is_white(#[trigger] s[k]) by {
            assert(scan::is_white(s.drop_last()[k]));
        }
        assert forall|k: int| j <= k < s.len() implies scan::is_white(#[trigger] s[k]) by {
            if k < s.len() - 1 {
                assert(scan::is_white(s.drop_last()[k]));
            }
        }
        if i < j {
            assert(s.drop_last()[i] == s[i] && s.drop_last()[j - 1] == s[j - 1]);
        }
        (i, j)
    } else {
        assert(s.subrange(0, s.len() as int) =~= s);
        (0, s.len() as int)
    }
}

/// A character is taken away at the end as often as it stands there, and nothing
/// else is.
pub proof fn law_trimmed_end(s: Seq<char>, c: char)
    ensures
        ({
            let t = scan::trimmed_end(s, c);
            &&& t.len() <= s.len()
            &&& t == s.take(t.len() as int)
            &&& forall|k: int| t.len() <= k < s.len() ==> #[trigger] s[k] == c
            &&& t.len() > 0 ==> t.last() != c
        }),
    decreases s.len(),
{
    if s.len() > 0 && s.last() == c {
        law_trimmed_end(s.drop_last(), c);
        let t = scan::trimmed_end(s, c);
        assert(s.drop_last().take(t.len() as int) =~= s.take(t.len() as int));
        assert forall|k: int| t.len() <= k < s.len() implies #[trigger] s[k] == c by {
            if k < s.len() - 1 {
                assert(s.drop_last()[k] == c);
            }
        }
    } else {
        assert(s.take(s.len() as int) =~= s);
    }
}

/// The words of a text: a word ends at white space or with the text, and white
/// space in front of a word does not count.
pub proof fn law_words(word: Seq<char>, c: char, rest: Seq<char>)
    requires
        forall|i: int| 0 <= i < word.len() ==> !scan::is_white(#[trigger] word[i]),
        scan::is_white(c),
    ensures
        word.len() > 0 ==> scan::words(word) == seq![word],
        word.len() > 0 ==> scan::words(word.push(c) + rest) == seq![word] + scan::words(rest),
        scan::words(seq![c] + rest) == scan::words(rest),
{
    assert((seq![c] + rest).skip(1) =~= rest);
    assert((seq![c] + rest)[0] == c);
    assert(scan::first_white(seq![c] + rest) == 0);
    assert(scan::words(seq![c] + rest) == scan::words(rest));
    if word.len() > 0 {
        lemma_first_white_at(word, word.len() as int);
        assert(word.take(word.len() as int) =~= word);
        assert(word.skip(word.len() as int) =~= Seq::empty());
        assert(scan::words(Seq::<char>::empty()) =~= Seq::<Seq<char>>::empty());
        assert(scan::words(word) =~= seq![word]);
        let s = word.push(c) + rest;
        assert forall|i: int| 0 <= i < word.len() implies !scan::is_white(#[trigger] s[i]) by {
            assert(s[i] == word[i]);
        }
        lemma_first_white_at(s, word.len() as int);
        assert(s.take(word.len() as int) =~= word);
        assert(s.skip(word.len() as int) =~= seq![c] + rest);
    }
}

proof fn lemma_first_white_at(s: Seq<char>, p: int)
    requires
        0 <= p <= s.len(),
        p < s.len() ==> scan::is_white(s[p]),
        forall|i: int| 0 <= i < p ==> !scan::is_white(#[trigger] s[i]),
    ensures
        scan::first_white(s) == p,
    decreases p,
{
    if p > 0 {
        assert(!scan::is_white(s[0]));
        assert forall|i: int| 0 <= i < p - 1 implies !scan::is_white(#[trigger] s.skip(1)[i]) by {
            assert(!scan::is_white(s[i + 1]));
        }
        lemma_first_white_at(s.skip(1), p - 1);
    }
}

/// A capital ASCII letter has the small letter that stands 32 behind it, and every
/// other character stays as it is.
pub proof fn law_lower(c: char)
    ensures
        65 <= c as u32 <= 90 ==> scan::lower(c) as u32 == c as u32 + 32,
        !(65 <= c as u32 <= 90) ==> scan::lower(c) == c,
{
}

/// Texts are the same but for case where each character is the same, or is the
/// capital or small form of the other.
pub proof fn law_same_but_case(a: Seq<char>, b: Seq<char>)
    ensures
        scan::same_but_case(a, b) <==> a.len() == b.len() && forall|i: int|
            0 <= i < a.len() ==> {
                ||| #[trigger] a[i] == b[i]
                ||| 65 <= a[i] as u32 <= 90 && b[i] as u32 == a[i] as u32 + 32
                ||| 65 <= b[i] as u32 <= 90 && a[i] as u32 == b[i] as u32 + 32
            },
{
    assert forall|i: int| 0 <= i < a.len() && a.len() == b.len() implies (scan::lower(
        #[trigger] a[i],
    ) == scan::lower(b[i]) <==> {
        ||| a[i] == b[i]
        ||| 65 <= a[i] as u32 <= 90 && b[i] as u32 == a[i] as u32 + 32
        ||| 65 <= b[i] as u32 <= 90 && a[i] as u32 == b[i] as u32 + 32
    }) by {
        let (x, y) = (a[i], b[i]);
        assert(scan::lower(x) == scan::lower(y) <==> scan::lower(x) as u32 == scan::lower(
            y,
        ) as u32);
    }
}

/// A number that is written in decimal notation is read back, with or without a
/// plus sign, up to the largest of 16 bits and no further.
pub proof fn law_number16_read_back(n: nat)
    ensures
        scan::number16(text::ascii_chars(text::digits(n))) == if n <= 65535 {
            Some(n as u16)
        } else {
            None
        },
        scan::number16(seq!['+'] + text::ascii_chars(text::digits(n))) == if n <= 65535 {
            Some(n as u16)
        } else {
            None
        },
{
    let d = text::digits(n);
    text::lemma_digits_value(n);
    let s = text::ascii_chars(d);
    lemma_digits_bytes(d);
    assert(text::is_digit(d[0]));
    let plus = seq!['+'] + s;
    assert(is_ascii_chars(plus)) by {
        assert forall|i: int| 0 <= i < plus.len() implies '\0' <= #[trigger] plus[i] <= '\u{7f}' by {
            if i > 0 {
                assert(text::is_digit(d[i - 1]));
            }
        }
    }
    is_ascii_chars_encode_utf8(plus);
    assert(encode_utf8(plus).skip(1) =~= d) by {
        assert forall|i: int| 0 <= i < d.len() implies #[trigger] d[i] == encode_utf8(
            plus,
        )[i + 1] by {
            assert(plus[i + 1] == d[i] as char);
            assert(text::is_digit(d[i]));
        }
    }
    assert(encode_utf8(plus)[0] == plus[0] as u8);
}

/// Digits as text have the digits as their bytes.
pub proof fn lemma_digits_bytes(d: Seq<u8>)
    requires
        text::all_digits(d),
    ensures
        encode_utf8(text::ascii_chars(d)) == d,
{
    let s = text::ascii_chars(d);
    assert(is_ascii_chars(s)) by {
        assert forall|i: int| 0 <= i < s.len() implies '\0' <= #[trigger] s[i] <= '\u{7f}' by {
            assert(text::is_digit(d[i]));
        }
    }
    is_ascii_chars_encode_utf8(s);
    assert(encode_utf8(s) =~= d) by {
        assert forall|i: int| 0 <= i < d.len() implies encode_utf8(s)[i] == #[trigger] d[i] by {
            assert(text::is_digit(d[i]));
            assert(s[i] == d[i] as char);
        }
    }
}

/// Digits are read as the number that they denote, with zeros in front or without.
pub proof fn law_number16_read(d: Seq<u8>)
    requires
        d.len() > 0,
        forall|i: int| 0 <= i < d.len() ==> 48 <= #[trigger] d[i] <= 57,
    ensures
        scan::number16(text::ascii_chars(d)) == if text::digits_value(d) <= 65535 {
            Some(text::digits_value(d) as u16)
        } else {
            None
        },
{
    assert forall|i: int| 0 <= i < d.len() implies text::is_digit(#[trigger] d[i]) by {}
    lemma_digits_bytes(d);
    assert(text::is_digit(d[0]));
}

/// A number is read only of digits.
pub proof fn law_number16_of_digits(s: Seq<char>, k: int)
    requires
        scan::number16(s) is Some,
        0 <= k < encode_utf8(s).len(),
    ensures
        48 <= encode_utf8(s)[k] <= 57 || k == 0 && encode_utf8(s)[0] == 43 && encode_utf8(s).len()
            > 1,
{
    let bytes = encode_utf8(s);
    if bytes[0] == 43 {
        if k > 0 {
            assert(text::is_digit(bytes.skip(1)[k - 1]));
        }
    } else {
        assert(text::is_digit(bytes[k]));
    }
}

} // verus!
