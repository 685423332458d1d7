//! Reading bencode.
use vstd::prelude::*;
use vstd::slice::slice_subrange;
use vstd::utf8::*;

use crate::bencode::grammar;
use crate::bencode::grammar::Bencode;
use crate::bencode::laws;
use crate::bencode::{precedes, BencodeDict, BencodeError, BencodeValue};
use crate::bytes::copy_bytes;
use crate::text;

verus! {

/// The outcome of reading is the one that the grammar gives.
pub open spec fn outcome(
    result: Result<(BencodeValue, usize), BencodeError>,
    expected: Result<(Bencode, int), Seq<char>>,
) -> bool {
    match result {
        Ok((value, n)) => expected == Ok::<_, Seq<char>>((value@, n as int)),
        Err(e) => expected == Err::<(Bencode, int), _>(e.0@),
    }
}

/// An error with a fixed message.
fn failure(message: &str) -> (e: BencodeError)
    ensures
        e.0@ == message@,
{
    BencodeError(message.to_string())
}

/// The position of the first `byte`, or the length of `s` where there is none.
fn find(s: &[u8], byte: u8) -> (k: usize)
    ensures
        k == grammar::position(s@, byte),
        k <= s@.len(),
{
    let mut i: usize = 0;
    while i < s.len() && s[i] != byte
        invariant
            i <= s@.len(),
            forall|j: int| 0 <= j < i ==> #[trigger] s@[j] != byte,
        decreases s@.len() - i,
    {
        i = i + 1;
    }
    proof {
        laws::lemma_position(s@, byte, i as int);
    }
    i
}

/// Reads the value at the start of `input`: the value, and the number of bytes
/// that it takes.
///
/// Only the canonical form is read: numbers have no leading zeros and no sign
/// but a minus before a number other than zero, and dictionary keys ascend. So
/// what is read is written again byte by byte as it was.
pub fn decode(input: &[u8]) -> (result: Result<(BencodeValue, usize), BencodeError>)
    ensures
        outcome(result, grammar::decoded(input@)),
        result matches Ok((value, n)) ==> {
            &&& grammar::valid(value@)
            &&& 0 < n <= input@.len()
            &&& input@.take(n as int) == grammar::encoding(value@)
        },
        result is Err ==> forall|v: Bencode, n: int|
            #![trigger grammar::encoding(v), input@.take(n)]
            grammar::valid(v) && 0 <= n <= input@.len() ==> input@.take(n) != grammar::encoding(v),
{
    let result = decode_any(input);
    proof {
        laws::law_decoded_written_so(input@);
        if result is Err {
            assert forall|v: Bencode, n: int|
                #![trigger grammar::encoding(v), input@.take(n)]
                grammar::valid(v) && 0 <= n <= input@.len() implies input@.take(n)
                != grammar::encoding(v) by {
                laws::law_decoded_iff_written(input@, v, n);
            }
        }
    }
    result
}

fn decode_any(input: &[u8]) -> (result: Result<(BencodeValue, usize), BencodeError>)
    ensures
        outcome(result, grammar::decoded(input@)),
    decreases input@.len(), 1nat,
{
    if input.len() == 0 {
        return Err(failure("empty input"));
    }
    let first = input[0];
    if first == 105 {
        decode_int(input)
    } else if first == 108 {
        decode_list(input)
    } else if first == 100 {
        decode_dict(input)
    } else if 48 <= first && first <= 57 {
        decode_bytes(input)
    } else {
        let number = text::number_text(first as u64);
        Err(BencodeError(text::joined("unexpected byte: ", number.as_str())))
    }
}

fn decode_int(input: &[u8]) -> (result: Result<(BencodeValue, usize), BencodeError>)
    requires
        input@.len() > 0,
        input@[0] == 105,
    ensures
        outcome(result, grammar::decoded_int(input@)),
{
    let end = find(input, 101);
    if end == input.len() {
        return Err(failure("unterminated integer"));
    }
    proof {
        laws::lemma_position_first(input@, 101);
    }
    let number = slice_subrange(input, 1, end);
    match text::decoded_text(number) {
        None => Err(failure("invalid integer")),
        Some(s) => match text::parse_integer(number) {
            None => Err(BencodeError(text::joined("cannot parse int: ", s))),
            Some(n) => Ok((BencodeValue::Int(n), end + 1)),
        },
    }
}

fn decode_bytes(input: &[u8]) -> (result: Result<(BencodeValue, usize), BencodeError>)
    ensures
        outcome(result, grammar::decoded_bytes(input@)),
{
    let colon = find(input, 58);
    if colon == input.len() {
        return Err(failure("missing colon in bytestring"));
    }
    let number = slice_subrange(input, 0, colon);
    assert(number@ =~= input@.take(colon as int));
    match text::decoded_text(number) {
        None => Err(failure("invalid length")),
        Some(s) => match text::parse_length(number) {
            None => Err(BencodeError(text::joined("cannot parse length: ", s))),
            Some(len) => {
                if len > input.len() - (colon + 1) {
                    return Err(failure("bytestring truncated"));
                }
                let start = colon + 1;
                let data = copy_bytes(slice_subrange(input, start, start + len));
                Ok((BencodeValue::Bytes(data), start + len))
            },
        },
    }
}

fn decode_list(input: &[u8]) -> (result: Result<(BencodeValue, usize), BencodeError>)
    requires
        input@.len() > 0,
        input@[0] == 108,
    ensures
        outcome(result, grammar::decoded(input@)),
    decreases input@.len(), 0nat,
{
    let mut pos: usize = 1;
    let mut items: Vec<BencodeValue> = Vec::new();
    let ghost body = input@.drop_first();
    assert(body.skip(0) =~= body);
    while pos < input.len()
        invariant
            1 <= pos <= input@.len(),
            input@.len() > 0,
            input@[0] == 108,
            body == input@.drop_first(),
            match grammar::decoded_items(body.skip(pos - 1)) {
                Ok((rest, n)) => grammar::decoded_items(body) == Ok::<_, Seq<char>>(
                    (crate::bencode::list_model(items@) + rest, n + pos - 1),
                ),
                Err(e) => grammar::decoded_items(body) == Err::<(Seq<Bencode>, int), _>(e),
            },
        decreases input@.len() - pos,
    {
        let ghost rest = body.skip(pos - 1);
        assert(rest[0] == input@[pos as int]);
        if input[pos] == 101 {
            let value = BencodeValue::List(items);
            assert(value@->List_0 =~= crate::bencode::list_model(items@) + Seq::<Bencode>::empty());
            return Ok((value, pos + 1));
        }
        let tail = slice_subrange(input, pos, input.len());
        assert(tail@ =~= rest);
        match decode_any(tail) {
            Err(e) => {
                return Err(e);
            },
            Ok((value, consumed)) => {
                proof {
                    laws::law_decoded_written_so(rest);
                }
                let ghost before = crate::bencode::list_model(items@);
                items.push(value);
                assert(body.skip(pos - 1).skip(consumed as int) =~= body.skip(pos + consumed - 1));
                pos = pos + consumed;
                assert(crate::bencode::list_model(items@) =~= before.push(value@));
                assert(forall|later: Seq<Bencode>| #[trigger]
                    (before + (seq![value@] + later)) =~= before.push(value@) + later);
            },
        }
    }
    assert(body.skip(pos - 1).len() == 0);
    Err(failure("unterminated list"))
}

/// The last key read.
pub open spec fn last_key(entries: Seq<(Seq<u8>, Bencode)>) -> Option<Seq<u8>> {
    if entries.len() == 0 {
        None
    } else {
        Some(entries.last().0)
    }
}

fn decode_dict(input: &[u8]) -> (result: Result<(BencodeValue, usize), BencodeError>)
    requires
        input@.len() > 0,
        input@[0] == 100,
    ensures
        outcome(result, grammar::decoded(input@)),
    decreases input@.len(), 0nat,
{
    let mut pos: usize = 1;
    let mut map = BencodeDict { entries: Vec::new() };
    let ghost body = input@.drop_first();
    assert(body.skip(0) =~= body);
    assert(map@ =~= Seq::empty());
    while pos < input.len()
        invariant
            1 <= pos <= input@.len(),
            input@.len() > 0,
            input@[0] == 100,
            body == input@.drop_first(),
            match grammar::decoded_entries(body.skip(pos - 1), last_key(map@)) {
                Ok((rest, n)) => grammar::decoded_entries(body, None) == Ok::<_, Seq<char>>(
                    (map@ + rest, n + pos - 1),
                ),
                Err(e) => grammar::decoded_entries(body, None) == Err::<
                    (Seq<(Seq<u8>, Bencode)>, int),
                    _,
                >(e),
            },
        decreases input@.len() - pos,
    {
        let ghost rest = body.skip(pos - 1);
        assert(rest[0] == input@[pos as int]);
        if input[pos] == 101 {
            assert(map@ + Seq::<(Seq<u8>, Bencode)>::empty() =~= map@);
            return Ok((BencodeValue::Dict(map), pos + 1));
        }
        let tail = slice_subrange(input, pos, input.len());
        assert(tail@ =~= rest);
        let (key, key_len) = match decode_any(tail) {
            Err(e) => {
                return Err(e);
            },
            Ok(read) => read,
        };
        proof {
            laws::law_decoded_written_so(rest);
        }
        let after_key = slice_subrange(input, pos + key_len, input.len());
        assert(after_key@ =~= rest.skip(key_len as int));
        let (value, value_len) = match decode_any(after_key) {
            Err(e) => {
                return Err(e);
            },
            Ok(read) => read,
        };
        proof {
            laws::law_decoded_written_so(after_key@);
        }
        let key_bytes = match key {
            BencodeValue::Bytes(b) => b,
            _ => {
                return Err(failure("dict key must be bytestring"));
            },
        };
        let count = map.entries.len();
        assert(map@.len() == count);
        if count > 0 {
            assert(map@.last().0 == map.entries@[count - 1].0@);
            if !precedes(map.entries[count - 1].0.as_slice(), key_bytes.as_slice()) {
                return Err(failure("dict keys not sorted"));
            }
        }
        let ghost before = map@;
        let ghost entry = (key_bytes@, value@);
        map.entries.push((key_bytes, value));
        assert(rest.skip(key_len + value_len) =~= body.skip(pos + key_len + value_len - 1));
        pos = pos + key_len + value_len;
        assert(map@ =~= before.push(entry));
        assert(forall|later: Seq<(Seq<u8>, Bencode)>| #[trigger]
            (before + (seq![entry] + later)) =~= before.push(entry) + later);
    }
    assert(body.skip(pos - 1).len() == 0);
    Err(failure("unterminated dict"))
}

} // verus!
