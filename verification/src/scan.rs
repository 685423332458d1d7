//! Scanning text: prefixes, separators, white space, words.
pub mod laws;

use vstd::prelude::*;
use vstd::string::*;
use vstd::utf8::*;

use crate::text;
use crate::text::parse_digits;

verus! {

/// Whether a character is white space, as Unicode has it.
pub open spec fn is_white(c: char) -> bool {
    let n = c as u32;
    ||| 9 <= n <= 13
    ||| n == 32
    ||| n == 0x85
    ||| n == 0xa0
    ||| n == 0x1680
    ||| 0x2000 <= n <= 0x200a
    ||| n == 0x2028
    ||| n == 0x2029
    ||| n == 0x202f
    ||| n == 0x205f
    ||| n == 0x3000
}

/// A text without the white space around it.
pub open spec fn trimmed(s: Seq<char>) -> Seq<char>
    decreases s.len(),
{
    if s.len() > 0 && is_white(s[0]) {
        trimmed(s.skip(1))
    } else if s.len() > 0 && is_white(s.last()) {
        trimmed(s.drop_last())
    } else {
        s
    }
}

/// A text without the characters `c` at its end.
pub open spec fn trimmed_end(s: Seq<char>, c: char) -> Seq<char>
    decreases s.len(),
{
    if s.len() > 0 && s.last() == c {
        trimmed_end(s.drop_last(), c)
    } else {
        s
    }
}

/// Where `c` occurs first, or the length of the text.
pub open spec fn first_of(s: Seq<char>, c: char) -> int
    decreases s.len(),
{
    if s.len() == 0 || s[0] == c {
        0
    } else {
        1 + first_of(s.skip(1), c)
    }
}

/// The texts between the separators.
pub open spec fn split(s: Seq<char>, c: char) -> Seq<Seq<char>>
    decreases s.len(),
{
    let p = first_of(s, c);
    if 0 <= p < s.len() {
        seq![s.take(p)] + split(s.skip(p + 1), c)
    } else {
        seq![s]
    }
}

/// Where the first white space is, or the length of the text.
pub open spec fn first_white(s: Seq<char>) -> int
    decreases s.len(),
{
    if s.len() == 0 || is_white(s[0]) {
        0
    } else {
        1 + first_white(s.skip(1))
    }
}

/// The words of a text: what stands between white space.
pub open spec fn words(s: Seq<char>) -> Seq<Seq<char>>
    decreases s.len(),
{
    let p = first_white(s);
    if s.len() == 0 {
        Seq::empty()
    } else if p == 0 {
        words(s.skip(1))
    } else if 0 < p <= s.len() {
        seq![s.take(p)] + words(s.skip(p))
    } else {
        Seq::empty()
    }
}

/// The small letter that goes with an ASCII letter.
pub open spec fn lower(c: char) -> char {
    if 'A' <= c <= 'Z' {
        ((c as u32) + 32) as char
    } else {
        c
    }
}

/// Whether two texts are the same but for capital and small ASCII letters.
pub open spec fn same_but_case(a: Seq<char>, b: Seq<char>) -> bool {
    &&& a.len() == b.len()
    &&& forall|i: int| 0 <= i < a.len() ==> lower(#[trigger] a[i]) == lower(b[i])
}

/// The number of 16 bits that a text denotes in decimal notation, with or
/// without a plus sign in front.
pub open spec fn number16(s: Seq<char>) -> Option<u16> {
    let bytes = encode_utf8(s);
    let digits = if bytes.len() > 0 && bytes[0] == 43 {
        bytes.skip(1)
    } else {
        bytes
    };
    if text::all_digits(digits) && text::digits_value(digits) <= u16::MAX {
        Some(text::digits_value(digits) as u16)
    } else {
        None
    }
}

/// The characters of a text.
pub fn chars_of(s: &str) -> (out: Vec<char>)
    ensures
        out@ == s@,
{
    let mut out: Vec<char> = Vec::new();
    for c in it: s.chars()
        invariant
            out@ == it.seq().take(it.index() as int),
            it.seq() == s@,
    {
        out.push(c);
    }
    assert(out@ =~= s@);
    out
}

/// Whether a character is white space.
pub fn white(c: char) -> (out: bool)
    ensures
        out == is_white(c),
{
    let n = c as u32;
    (n >= 9 && n <= 13) || n == 32 || n == 0x85 || n == 0xa0 || n == 0x1680 || (n >= 0x2000 && n
        <= 0x200a) || n == 0x2028 || n == 0x2029 || n == 0x202f || n == 0x205f || n == 0x3000
}

/// Whether a text begins with another.
pub fn starts_with(s: &str, prefix: &str) -> (out: bool)
    ensures
        out == prefix@.is_prefix_of(s@),
{
    let all = chars_of(s);
    let front = chars_of(prefix);
    if front.len() > all.len() {
        return false;
    }
    let mut i: usize = 0;
    while i < front.len()
        invariant
            all@ == s@,
            front@ == prefix@,
            i <= front@.len() <= all@.len(),
            forall|k: int| 0 <= k < i ==> all@[k] == #[trigger] front@[k],
        decreases front@.len() - i,
    {
        if all[i] != front[i] {
            assert(s@.subrange(0, prefix@.len() as int)[i as int] != prefix@[i as int]);
            return false;
        }
        i = i + 1;
    }
    assert(s@.subrange(0, prefix@.len() as int) =~= prefix@);
    true
}

pub proof fn lemma_first_of(s: Seq<char>, c: char, p: int)
    requires
        0 <= p <= s.len(),
        p < s.len() ==> s[p] == c,
        forall|i: int| 0 <= i < p ==> #[trigger] s[i] != c,
    ensures
        first_of(s, c) == p,
    decreases p,
{
    if p > 0 {
        assert(s[0] != c);
        assert forall|i: int| 0 <= i < p - 1 implies #[trigger] s.skip(1)[i] != c by {
            assert(s[i + 1] != c);
        }
        lemma_first_of(s.skip(1), c, p - 1);
    }
}

/// Where the character is found, or the text ends.
pub proof fn lemma_first_of_found(s: Seq<char>, c: char)
    ensures
        0 <= first_of(s, c) <= s.len(),
        first_of(s, c) < s.len() ==> s[first_of(s, c)] == c,
    decreases s.len(),
{
    if s.len() > 0 && s[0] != c {
        lemma_first_of_found(s.skip(1), c);
    }
}

proof fn lemma_first_white(s: Seq<char>, p: int)
    requires
        0 <= p <= s.len(),
        p < s.len() ==> is_white(s[p]),
        forall|i: int| 0 <= i < p ==> !is_white(#[trigger] s[i]),
    ensures
        first_white(s) == p,
    decreases p,
{
    if p > 0 {
        assert(!is_white(s[0]));
        assert forall|i: int| 0 <= i < p - 1 implies !is_white(#[trigger] s.skip(1)[i]) by {
            assert(!is_white(s[i + 1]));
        }
        lemma_first_white(s.skip(1), p - 1);
    }
}

/// Where nothing is left without the white space, there is nothing but white
/// space.
pub proof fn lemma_trimmed_blank(s: Seq<char>)
    requires
        trimmed(s).len() == 0,
    ensures
        forall|i: int| 0 <= i < s.len() ==> is_white(#[trigger] s[i]),
    decreases s.len(),
{
    if s.len() > 0 && is_white(s[0]) {
        lemma_trimmed_blank(s.skip(1));
        assert forall|i: int| 0 <= i < s.len() implies is_white(#[trigger] s[i]) by {
            if i > 0 {
                assert(is_white(s.skip(1)[i - 1]));
            }
        }
    } else if s.len() > 0 && is_white(s.last()) {
        lemma_trimmed_blank(s.drop_last());
        assert forall|i: int| 0 <= i < s.len() implies is_white(#[trigger] s[i]) by {
            if i < s.len() - 1 {
                assert(is_white(s.drop_last()[i]));
            }
        }
    }
}

/// A text without the white space around it.
pub fn trim<'a>(s: &'a str) -> (out: &'a str)
    ensures
        out@ == trimmed(s@),
{
    let all = chars_of(s);
    let mut i: usize = 0;
    assert(s@.subrange(0, s@.len() as int) =~= s@);
    while i < all.len() && white(all[i])
        invariant
            all@ == s@,
            i <= all@.len(),
            trimmed(s@) == trimmed(s@.subrange(i as int, s@.len() as int)),
        decreases all@.len() - i,
    {
        assert(s@.subrange(i as int, s@.len() as int).skip(1) =~= s@.subrange(
            i + 1,
            s@.len() as int,
        ));
        i = i + 1;
    }
    let mut j: usize = all.len();
    while j > i && white(all[j - 1])
        invariant
            all@ == s@,
            i <= j <= all@.len(),
            i < j ==> !is_white(s@[i as int]),
            trimmed(s@) == trimmed(s@.subrange(i as int, j as int)),
        decreases j,
    {
        assert(s@.subrange(i as int, j as int).drop_last() =~= s@.subrange(i as int, j - 1));
        j = j - 1;
    }
    s.substring_char(i, j)
}

/// A text without the characters `c` at its end.
pub fn trim_end<'a>(s: &'a str, c: char) -> (out: &'a str)
    ensures
        out@ == trimmed_end(s@, c),
{
    let all = chars_of(s);
    let mut j: usize = all.len();
    assert(s@.subrange(0, s@.len() as int) =~= s@);
    while j > 0 && all[j - 1] == c
        invariant
            all@ == s@,
            j <= all@.len(),
            trimmed_end(s@, c) == trimmed_end(s@.subrange(0, j as int), c),
        decreases j,
    {
        assert(s@.subrange(0, j as int).drop_last() =~= s@.subrange(0, j - 1));
        j = j - 1;
    }
    s.substring_char(0, j)
}

/// Where `c` occurs first.
pub fn find_char(s: &str, c: char) -> (out: Option<usize>)
    ensures
        match out {
            Some(p) => p == first_of(s@, c) && p < s@.len(),
            None => first_of(s@, c) == s@.len(),
        },
{
    let all = chars_of(s);
    let mut i: usize = 0;
    while i < all.len()
        invariant
            all@ == s@,
            i <= all@.len(),
            forall|k: int| 0 <= k < i ==> #[trigger] s@[k] != c,
        decreases all@.len() - i,
    {
        if all[i] == c {
            proof {
                lemma_first_of(s@, c, i as int);
            }
            return Some(i);
        }
        i = i + 1;
    }
    proof {
        lemma_first_of(s@, c, i as int);
    }
    None
}

/// The texts of the slices.
pub open spec fn slices(parts: Seq<&str>) -> Seq<Seq<char>> {
    Seq::new(parts.len(), |i: int| parts[i]@)
}

/// The texts between the separators.
pub fn split_text<'a>(s: &'a str, c: char) -> (out: Vec<&'a str>)
    ensures
        slices(out@) == split(s@, c),
{
    let all = chars_of(s);
    let mut out: Vec<&'a str> = Vec::new();
    let mut start: usize = 0;
    let mut i: usize = 0;
    assert(s@.skip(0) =~= s@);
    assert(slices(out@) + split(s@.skip(0), c) =~= split(s@, c));
    while i < all.len()
        invariant
            all@ == s@,
            start <= i <= all@.len(),
            slices(out@) + split(s@.skip(start as int), c) == split(s@, c),
            forall|k: int| start <= k < i ==> #[trigger] s@[k] != c,
        decreases all@.len() - i,
    {
        if all[i] == c {
            let ghost rest = s@.skip(start as int);
            let ghost before = slices(out@);
            let part = s.substring_char(start, i);
            proof {
                lemma_first_of(rest, c, i - start);
                assert(rest.take(i - start) =~= part@);
                assert(rest.skip(i - start + 1) =~= s@.skip(i + 1));
            }
            out.push(part);
            assert(slices(out@) =~= before.push(part@));
            assert(before + (seq![part@] + split(s@.skip(i + 1), c)) =~= slices(out@) + split(
                s@.skip(i + 1),
                c,
            ));
            start = i + 1;
        }
        i = i + 1;
    }
    let ghost before = slices(out@);
    let part = s.substring_char(start, i);
    proof {
        lemma_first_of(s@.skip(start as int), c, i - start);
        assert(s@.skip(start as int) =~= part@);
    }
    out.push(part);
    assert(slices(out@) =~= before + seq![part@]);
    out
}

/// The next word from `from` on: where it begins and where it ends.
fn next_word(all: &Vec<char>, from: usize) -> (out: Option<(usize, usize)>)
    requires
        from <= all@.len(),
    ensures
        match out {
            Some((start, end)) => {
                &&& from <= start < end <= all@.len()
                &&& words(all@.skip(from as int)) == seq![
                    all@.subrange(start as int, end as int),
                ] + words(all@.skip(end as int))
            },
            None => words(all@.skip(from as int)).len() == 0,
        },
{
    let mut start: usize = from;
    while start < all.len() && white(all[start])
        invariant
            from <= start <= all@.len(),
            words(all@.skip(from as int)) == words(all@.skip(start as int)),
        decreases all@.len() - start,
    {
        assert(all@.skip(start as int).skip(1) =~= all@.skip(start + 1));
        start = start + 1;
    }
    if start == all.len() {
        return None;
    }
    let mut end: usize = start;
    while end < all.len() && !white(all[end])
        invariant
            start <= end <= all@.len(),
            forall|k: int| start <= k < end ==> !is_white(#[trigger] all@[k]),
        decreases all@.len() - end,
    {
        end = end + 1;
    }
    let ghost rest = all@.skip(start as int);
    proof {
        lemma_first_white(rest, end - start);
        assert(rest.take(end - start) =~= all@.subrange(start as int, end as int));
        assert(rest.skip(end - start) =~= all@.skip(end as int));
    }
    Some((start, end))
}

/// The second word of a text.
pub fn second_word<'a>(s: &'a str) -> (out: Option<&'a str>)
    ensures
        out is Some <==> words(s@).len() > 1,
        out matches Some(word) ==> word@ == words(s@)[1],
{
    let all = chars_of(s);
    assert(all@.skip(0) =~= s@);
    match next_word(&all, 0) {
        None => None,
        Some((_, end)) => match next_word(&all, end) {
            None => None,
            Some((start, stop)) => Some(s.substring_char(start, stop)),
        },
    }
}

/// The small letter that goes with an ASCII letter.
fn lowered(c: char) -> (out: u32)
    ensures
        out == lower(c) as u32,
{
    let n = c as u32;
    if n >= 65 && n <= 90 {
        n + 32
    } else {
        n
    }
}

/// Whether two texts are the same but for capital and small ASCII letters.
pub fn equal_but_case(a: &str, b: &str) -> (out: bool)
    ensures
        out == same_but_case(a@, b@),
{
    let xs = chars_of(a);
    let ys = chars_of(b);
    if xs.len() != ys.len() {
        return false;
    }
    let mut i: usize = 0;
    while i < xs.len()
        invariant
            xs@ == a@,
            ys@ == b@,
            xs@.len() == ys@.len(),
            i <= xs@.len(),
            forall|k: int| 0 <= k < i ==> lower(#[trigger] xs@[k]) == lower(ys@[k]),
        decreases xs@.len() - i,
    {
        if lowered(xs[i]) != lowered(ys[i]) {
            assert(lower(a@[i as int]) != lower(b@[i as int]));
            return false;
        }
        i = i + 1;
    }
    true
}

/// The number of 16 bits that a text denotes in decimal notation.
pub fn parse_number16(s: &str) -> (out: Option<u16>)
    ensures
        out == number16(s@),
{
    let bytes = s.as_bytes();
    let digits = if bytes.len() > 0 && bytes[0] == 43 {
        vstd::slice::slice_subrange(bytes, 1, bytes.len())
    } else {
        bytes
    };
    assert(bytes@.len() > 0 && bytes@[0] == 43 ==> digits@ =~= bytes@.skip(1));
    match parse_digits(digits) {
        Some(n) => if n <= 65535 {
            Some(n as u16)
        } else {
            None
        },
        None => None,
    }
}

/// The letters from a to z stand in a row.
proof fn lemma_alphabet(k: int)
    requires
        0 <= k < 26,
    ensures
        "abcdefghijklmnopqrstuvwxyz"@.len() == 26,
        "abcdefghijklmnopqrstuvwxyz"@[k] == ((97 + k) as u32) as char,
{
    reveal_strlit("abcdefghijklmnopqrstuvwxyz");
}

/// A text with small letters in place of the capital ASCII letters.
pub fn lowercase(s: &str) -> (out: String)
    ensures
        out@ == s@.map_values(|c: char| lower(c)),
{
    let alphabet = "abcdefghijklmnopqrstuvwxyz";
    let ghost low = s@.map_values(|c: char| lower(c));
    let all = chars_of(s);
    let mut out = String::new();
    let mut i: usize = 0;
    assert(out@ =~= low.take(0));
    while i < all.len()
        invariant
            alphabet@ == "abcdefghijklmnopqrstuvwxyz"@,
            all@ == s@,
            i <= all@.len(),
            low == s@.map_values(|c: char| lower(c)),
            out@ == low.take(i as int),
        decreases all@.len() - i,
    {
        let n = all[i] as u32;
        let ghost before = out@;
        if n >= 65 && n <= 90 {
            let k = (n - 65) as usize;
            proof {
                lemma_alphabet(k as int);
            }
            out.append(alphabet.substring_char(k, k + 1));
            assert(out@ =~= before.push(alphabet@[k as int]));
        } else {
            out.append(s.substring_char(i, i + 1));
            assert(out@ =~= before.push(s@[i as int]));
        }
        i = i + 1;
        assert(low[i - 1] == lower(s@[i - 1]));
        assert(out@ =~= low.take(i as int));
    }
    assert(low.take(i as int) =~= low);
    out
}

} // verus!
