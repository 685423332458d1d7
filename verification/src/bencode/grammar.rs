//! The bencode format: what a value is, how it is written, and which bytes are
//! a value.
use vstd::prelude::*;
use vstd::utf8::*;

use crate::text;

verus! {

/// A bencode value.
///
/// The entries of a dictionary stand in the order in which they are written.
pub enum Bencode {
    Int(int),
    Bytes(Seq<u8>),
    List(Seq<Bencode>),
    Dict(Seq<(Seq<u8>, Bencode)>),
}

/// The order of dictionary keys: byte by byte, a proper prefix first.
pub open spec fn key_before(a: Seq<u8>, b: Seq<u8>) -> bool
    decreases a.len(),
{
    if b.len() == 0 {
        false
    } else if a.len() == 0 {
        true
    } else {
        a[0] < b[0] || (a[0] == b[0] && key_before(a.drop_first(), b.drop_first()))
    }
}

/// Every key stands before the keys that follow it, so none occurs twice.
pub open spec fn keys_ascending(entries: Seq<(Seq<u8>, Bencode)>) -> bool {
    forall|i: int, j: int|
        0 <= i < j < entries.len() ==> key_before(#[trigger] entries[i].0, #[trigger] entries[j].0)
}

/// What `key` stands for: the value of the first entry with that key.
pub open spec fn lookup(entries: Seq<(Seq<u8>, Bencode)>, key: Seq<u8>) -> Option<Bencode>
    decreases entries.len(),
{
    if entries.len() == 0 {
        None
    } else if entries[0].0 == key {
        Some(entries[0].1)
    } else {
        lookup(entries.drop_first(), key)
    }
}

/// Whether a value can be held: integers of 64 bits, byte strings and keys of a
/// length that is a `usize`, dictionary keys in order.
pub open spec fn valid(v: Bencode) -> bool
    decreases v,
{
    match v {
        Bencode::Int(n) => i64::MIN <= n <= i64::MAX,
        Bencode::Bytes(b) => b.len() <= usize::MAX,
        Bencode::List(items) => forall|i: int| 0 <= i < items.len() ==> valid(#[trigger] items[i]),
        Bencode::Dict(entries) => {
            &&& keys_ascending(entries)
            &&& forall|i: int|
                0 <= i < entries.len() ==> (#[trigger] entries[i]).0.len() <= usize::MAX && valid(
                    entries[i].1,
                )
        },
    }
}

/// The number that a value is.
pub open spec fn int_of(v: Bencode) -> Option<int> {
    match v {
        Bencode::Int(n) => Some(n),
        _ => None,
    }
}

/// The byte string that a value is.
pub open spec fn bytes_of(v: Bencode) -> Option<Seq<u8>> {
    match v {
        Bencode::Bytes(b) => Some(b),
        _ => None,
    }
}

/// The text that a value is: a byte string of valid UTF-8.
pub open spec fn text_of(v: Bencode) -> Option<Seq<char>> {
    match v {
        Bencode::Bytes(b) => if valid_utf8(b) {
            Some(decode_utf8(b))
        } else {
            None
        },
        _ => None,
    }
}

/// The items of the list that a value is.
pub open spec fn list_of(v: Bencode) -> Option<Seq<Bencode>> {
    match v {
        Bencode::List(items) => Some(items),
        _ => None,
    }
}

/// The entries of the dictionary that a value is.
pub open spec fn dict_of(v: Bencode) -> Option<Seq<(Seq<u8>, Bencode)>> {
    match v {
        Bencode::Dict(entries) => Some(entries),
        _ => None,
    }
}

/// What `key` stands for in the dictionary that a value is.
pub open spec fn entry_of(v: Bencode, key: Seq<u8>) -> Option<Bencode> {
    match v {
        Bencode::Dict(entries) => lookup(entries, key),
        _ => None,
    }
}

/// How a byte string is written: its length, a colon, its bytes.
pub open spec fn encoded_bytes(b: Seq<u8>) -> Seq<u8> {
    text::digits(b.len()) + seq![58u8] + b
}

/// How a value is written.
pub open spec fn encoding(v: Bencode) -> Seq<u8>
    decreases v, 0nat,
{
    match v {
        Bencode::Int(n) => seq![105u8] + text::decimal(n) + seq![101u8],
        Bencode::Bytes(b) => encoded_bytes(b),
        Bencode::List(items) => seq![108u8] + encoded_items(items, 0) + seq![101u8],
        Bencode::Dict(entries) => seq![100u8] + encoded_entries(entries, 0)
            + seq![101u8],
    }
}

/// How the items of a list are written, from the item at `k` on.
pub open spec fn encoded_items(items: Seq<Bencode>, k: nat) -> Seq<u8>
    decreases items, items.len() - k,
{
    if k >= items.len() {
        Seq::empty()
    } else {
        encoding(items[k as int]) + encoded_items(items, k + 1)
    }
}

/// How the entries of a dictionary are written, from the entry at `k` on.
pub open spec fn encoded_entries(entries: Seq<(Seq<u8>, Bencode)>, k: nat) -> Seq<u8>
    decreases entries, entries.len() - k,
{
    if k >= entries.len() {
        Seq::empty()
    } else {
        encoded_bytes(entries[k as int].0) + encoding(entries[k as int].1) + encoded_entries(
            entries,
            k + 1,
        )
    }
}

/// The position of the first `byte`, or the length of `s` where there is none.
pub open spec fn position(s: Seq<u8>, byte: u8) -> int
    decreases s.len(),
{
    if s.len() == 0 || s[0] == byte {
        0
    } else {
        1 + position(s.drop_first(), byte)
    }
}

/// The value that `s` starts with and the number of bytes that it takes, or why
/// there is none.
pub open spec fn decoded(s: Seq<u8>) -> Result<(Bencode, int), Seq<char>>
    decreases s.len(), 0nat,
{
    if s.len() == 0 {
        Err("empty input"@)
    } else if s[0] == 105 {
        decoded_int(s)
    } else if s[0] == 108 {
        match decoded_items(s.drop_first()) {
            Ok((items, n)) => Ok((Bencode::List(items), n + 1)),
            Err(e) => Err(e),
        }
    } else if s[0] == 100 {
        match decoded_entries(s.drop_first(), None) {
            Ok((entries, n)) => Ok((Bencode::Dict(entries), n + 1)),
            Err(e) => Err(e),
        }
    } else if text::is_digit(s[0]) {
        decoded_bytes(s)
    } else {
        Err("unexpected byte: "@ + text::ascii_chars(text::digits(s[0] as nat)))
    }
}

/// An integer: `i`, a canonical decimal notation of at most 64 bits, `e`.
pub open spec fn decoded_int(s: Seq<u8>) -> Result<(Bencode, int), Seq<char>> {
    let end = position(s, 101);
    if end == s.len() {
        Err("unterminated integer"@)
    } else {
        let number = s.subrange(1, end);
        if !valid_utf8(number) {
            Err("invalid integer"@)
        } else if !text::canonical_decimal(number) || !(i64::MIN <= text::decimal_value(number) <= i64::MAX) {
            Err("cannot parse int: "@ + decode_utf8(number))
        } else {
            Ok((Bencode::Int(text::decimal_value(number)), end + 1))
        }
    }
}

/// A byte string: a canonical length, a colon, that many bytes.
pub open spec fn decoded_bytes(s: Seq<u8>) -> Result<(Bencode, int), Seq<char>> {
    let colon = position(s, 58);
    if colon == s.len() {
        Err("missing colon in bytestring"@)
    } else {
        let number = s.take(colon);
        let len = text::digits_value(number);
        if !valid_utf8(number) {
            Err("invalid length"@)
        } else if !text::canonical_digits(number) || len > usize::MAX {
            Err("cannot parse length: "@ + decode_utf8(number))
        } else if colon + 1 + len > s.len() {
            Err("bytestring truncated"@)
        } else {
            Ok((Bencode::Bytes(s.subrange(colon + 1, colon + 1 + len)), colon + 1 + len))
        }
    }
}

/// Values up to an `e`, and the number of bytes up to and with the `e`.
pub open spec fn decoded_items(s: Seq<u8>) -> Result<(Seq<Bencode>, int), Seq<char>>
    decreases s.len(), 1nat,
{
    if s.len() == 0 {
        Err("unterminated list"@)
    } else if s[0] == 101 {
        Ok((Seq::empty(), 1))
    } else {
        match decoded(s) {
            Err(e) => Err(e),
            Ok((item, n)) => if !(0 < n <= s.len()) {
                Err("unterminated list"@)
            } else {
                match decoded_items(s.skip(n)) {
                    Err(e) => Err(e),
                    Ok((items, m)) => Ok((seq![item] + items, n + m)),
                }
            },
        }
    }
}

/// Keys, after `last` and in order, each with its value, up to an `e`, and the
/// number of bytes up to and with the `e`.
pub open spec fn decoded_entries(s: Seq<u8>, last: Option<Seq<u8>>) -> Result<
    (Seq<(Seq<u8>, Bencode)>, int),
    Seq<char>,
>
    decreases s.len(), 1nat,
{
    if s.len() == 0 {
        Err("unterminated dict"@)
    } else if s[0] == 101 {
        Ok((Seq::empty(), 1))
    } else {
        match decoded(s) {
            Err(e) => Err(e),
            Ok((key, n)) => if !(0 < n <= s.len()) {
                Err("unterminated dict"@)
            } else {
                match decoded(s.skip(n)) {
                    Err(e) => Err(e),
                    Ok((value, m)) => if !(0 < m <= s.len() - n) {
                        Err("unterminated dict"@)
                    } else {
                        match key {
                            Bencode::Bytes(k) => if last is Some && !key_before(last->0, k) {
                                Err("dict keys not sorted"@)
                            } else {
                                match decoded_entries(s.skip(n + m), Some(k)) {
                                    Err(e) => Err(e),
                                    Ok((entries, r)) => Ok((seq![(k, value)] + entries, n + m + r)),
                                }
                            },
                            _ => Err("dict key must be bytestring"@),
                        }
                    },
                }
            },
        }
    }
}

} // verus!
