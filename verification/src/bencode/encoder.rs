//! Writing bencode.
use vstd::prelude::*;

use crate::bencode;
use crate::bencode::grammar;
use crate::bencode::grammar::Bencode;
use crate::bencode::BencodeValue;
use crate::text;

verus! {

/// Writes a byte string.
fn encode_bytes(b: &Vec<u8>) -> (out: Vec<u8>)
    ensures
        out@ == grammar::encoded_bytes(b@),
{
    let mut out = text::digit_bytes(b.len() as u64);
    out.push(58);
    out.extend_from_slice(b.as_slice());
    assert(out@ =~= grammar::encoded_bytes(b@));
    out
}

/// Writes a value.
pub fn encode(value: &BencodeValue) -> (out: Vec<u8>)
    ensures
        out@ == grammar::encoding(value@),
    decreases value,
{
    match value {
        BencodeValue::Int(n) => {
            let mut out: Vec<u8> = Vec::new();
            out.push(105);
            let mut number = text::decimal_bytes(*n);
            out.append(&mut number);
            out.push(101);
            assert(out@ =~= grammar::encoding(value@));
            out
        },
        BencodeValue::Bytes(b) => encode_bytes(b),
        BencodeValue::List(items) => {
            let ghost all = value@->List_0;
            let mut out: Vec<u8> = Vec::new();
            out.push(108);
            let mut i: usize = 0;
            assert(out@ =~= seq![108u8]);
            while i < items.len()
                invariant
                    i <= items@.len(),
                    value@ == Bencode::List(all),
                    *value == BencodeValue::List(*items),
                    all.len() == items@.len(),
                    seq![108u8] + grammar::encoded_items(all, 0) == out@ + grammar::encoded_items(
                        all,
                        i as nat,
                    ),
                decreases items@.len() - i,
            {
                let mut item = encode(&items[i]);
                assert(all[i as int] == items@[i as int]@);
                let ghost before = out@;
                out.append(&mut item);
                i = i + 1;
                assert(before + grammar::encoded_items(all, (i - 1) as nat) =~= out@
                    + grammar::encoded_items(all, i as nat));
            }
            out.push(101);
            assert(out@ =~= grammar::encoding(value@));
            out
        },
        BencodeValue::Dict(map) => {
            let ghost all = map@;
            let mut out: Vec<u8> = Vec::new();
            out.push(100);
            let mut i: usize = 0;
            assert(out@ =~= seq![100u8]);
            while i < map.entries.len()
                invariant
                    i <= map.entries@.len(),
                    all == map@,
                    *value == BencodeValue::Dict(*map),
                    all.len() == map.entries@.len(),
                    seq![100u8] + grammar::encoded_entries(all, 0) == out@
                        + grammar::encoded_entries(all, i as nat),
                decreases map.entries@.len() - i,
            {
                let mut key = encode_bytes(&map.entries[i].0);
                assert(decreases_to!(map.entries@[i as int] => map.entries@[i as int].1));
                assert(decreases_to!(value => value->Dict_0));
                assert(decreases_to!(map => map.entries));
                assert(decreases_to!(map.entries => map.entries@));
                let mut item = encode(&map.entries[i].1);
                assert(all[i as int] == (map.entries@[i as int].0@, map.entries@[i as int].1@));
                let ghost before = out@;
                out.append(&mut key);
                out.append(&mut item);
                i = i + 1;
                assert(before + grammar::encoded_entries(all, (i - 1) as nat) =~= out@
                    + grammar::encoded_entries(all, i as nat));
            }
            out.push(101);
            assert(out@ =~= grammar::encoding(value@));
            out
        },
    }
}

} // verus!
