//! Bencode, the format of metainfo files and tracker responses.
pub mod decoder;
pub mod encoder;
pub mod grammar;
pub mod laws;

pub use crate::bencode::decoder::decode;
pub use crate::bencode::encoder::encode;

use vstd::prelude::*;
use vstd::string::*;
use vstd::utf8::*;

use crate::bencode::grammar::Bencode;
use crate::bytes::{copy_bytes, same_bytes};
use crate::text::{decoded_text, joined};

verus! {

/// A bencode value.
#[derive(Debug, PartialEq)]
pub enum BencodeValue {
    Int(i64),
    Bytes(Vec<u8>),
    List(Vec<BencodeValue>),
    Dict(BencodeDict),
}

/// A dictionary: byte strings, each once and in order, with their values.
#[derive(Debug, PartialEq)]
pub struct BencodeDict {
    entries: Vec<(Vec<u8>, BencodeValue)>,
}

/// Why bytes are not a bencode value.
#[derive(Debug)]
pub struct BencodeError(pub String);

/// The value that `v` holds.
pub open spec fn model(v: BencodeValue) -> Bencode
    decreases v,
{
    match v {
        BencodeValue::Int(n) => Bencode::Int(n as int),
        BencodeValue::Bytes(b) => Bencode::Bytes(b@),
        BencodeValue::List(items) => Bencode::List(
            Seq::new(
                items@.len(),
                |i: int|
                    if 0 <= i < items@.len() {
                        model(items@[i])
                    } else {
                        Bencode::Int(0)
                    },
            ),
        ),
        BencodeValue::Dict(d) => Bencode::Dict(dict_model(d)),
    }
}

/// The entries that `d` holds, in order.
pub closed spec fn dict_model(d: BencodeDict) -> Seq<(Seq<u8>, Bencode)>
    decreases d,
{
    Seq::new(
        d.entries@.len(),
        |i: int|
            if 0 <= i < d.entries@.len() {
                (d.entries@[i].0@, model(d.entries@[i].1))
            } else {
                (Seq::empty(), Bencode::Int(0))
            },
    )
}

/// The values that `items` hold.
pub open spec fn list_model(items: Seq<BencodeValue>) -> Seq<Bencode> {
    Seq::new(items.len(), |i: int| model(items[i]))
}

impl View for BencodeValue {
    type V = Bencode;

    open spec fn view(&self) -> Bencode {
        model(*self)
    }
}

impl View for BencodeDict {
    type V = Seq<(Seq<u8>, Bencode)>;

    open spec fn view(&self) -> Seq<(Seq<u8>, Bencode)> {
        dict_model(*self)
    }
}

/// The views of two optional values agree.
pub open spec fn same_entry(held: Option<&BencodeValue>, expected: Option<Bencode>) -> bool {
    match held {
        Some(v) => expected == Some(v@),
        None => expected is None,
    }
}

impl BencodeValue {
    /// The text, where the value is a byte string of valid UTF-8.
    pub fn as_str(&self) -> (out: Option<&str>)
        ensures
            out is Some <==> grammar::text_of(self@) is Some,
            out matches Some(s) ==> grammar::text_of(self@) == Some(s@),
    {
        match self {
            BencodeValue::Bytes(b) => decoded_text(b.as_slice()),
            _ => None,
        }
    }

    /// The number, where the value is one.
    pub fn as_int(&self) -> (out: Option<i64>)
        ensures
            out is Some <==> grammar::int_of(self@) is Some,
            out matches Some(n) ==> grammar::int_of(self@) == Some(n as int),
    {
        match self {
            BencodeValue::Int(n) => Some(*n),
            _ => None,
        }
    }

    /// The bytes, where the value is a byte string.
    pub fn as_bytes(&self) -> (out: Option<&[u8]>)
        ensures
            out is Some <==> grammar::bytes_of(self@) is Some,
            out matches Some(b) ==> grammar::bytes_of(self@) == Some(b@),
    {
        match self {
            BencodeValue::Bytes(b) => Some(b.as_slice()),
            _ => None,
        }
    }

    /// The items, where the value is a list.
    pub fn as_list(&self) -> (out: Option<&[BencodeValue]>)
        ensures
            out is Some <==> grammar::list_of(self@) is Some,
            out matches Some(items) ==> grammar::list_of(self@) == Some(list_model(items@)),
    {
        match self {
            BencodeValue::List(items) => {
                assert(self@->List_0 =~= list_model(items@));
                Some(items.as_slice())
            },
            _ => None,
        }
    }

    /// The entries, where the value is a dictionary.
    pub fn as_dict(&self) -> (out: Option<&BencodeDict>)
        ensures
            out is Some <==> grammar::dict_of(self@) is Some,
            out matches Some(d) ==> grammar::dict_of(self@) == Some(d@),
    {
        match self {
            BencodeValue::Dict(d) => Some(d),
            _ => None,
        }
    }

    /// What `key` stands for, where the value is a dictionary.
    pub fn dict_get(&self, key: &[u8]) -> (out: Option<&BencodeValue>)
        ensures
            same_entry(out, grammar::entry_of(self@, key@)),
    {
        match self.as_dict() {
            Some(d) => d.get(key),
            None => None,
        }
    }

    /// What the UTF-8 encoding of `key` stands for, where the value is a
    /// dictionary.
    pub fn dict_get_str(&self, key: &str) -> (out: Option<&BencodeValue>)
        ensures
            same_entry(out, grammar::entry_of(self@, encode_utf8(key@))),
    {
        match self.as_dict() {
            Some(d) => d.get(key.as_bytes()),
            None => None,
        }
    }
}

impl BencodeError {
    /// The error as text.
    pub fn to_string(&self) -> (out: String)
        ensures
            out@ == "bencode error: "@ + self.0@,
    {
        joined("bencode error: ", self.0.as_str())
    }
}

/// An entry with the key is what the key stands for, where keys ascend.
proof fn lemma_lookup_at(entries: Seq<(Seq<u8>, Bencode)>, i: int)
    requires
        grammar::keys_ascending(entries),
        0 <= i < entries.len(),
    ensures
        grammar::lookup(entries, entries[i].0) == Some(entries[i].1),
    decreases entries.len(),
{
    if i > 0 {
        assert(grammar::key_before(entries[0].0, entries[i].0));
        laws::lemma_key_irreflexive(entries[0].0);
        let tail = entries.drop_first();
        assert forall|a: int, b: int| 0 <= a < b < tail.len() implies grammar::key_before(
            #[trigger] tail[a].0,
            #[trigger] tail[b].0,
        ) by {
            assert(tail[a] == entries[a + 1] && tail[b] == entries[b + 1]);
        }
        lemma_lookup_at(tail, i - 1);
        assert(tail[i - 1] == entries[i]);
    }
}

/// A key that no entry has stands for nothing.
proof fn lemma_lookup_none(entries: Seq<(Seq<u8>, Bencode)>, key: Seq<u8>)
    ensures
        grammar::lookup(entries, key) is None <==> forall|i: int|
            0 <= i < entries.len() ==> (#[trigger] entries[i]).0 != key,
    decreases entries.len(),
{
    if entries.len() > 0 {
        let tail = entries.drop_first();
        lemma_lookup_none(tail, key);
        if grammar::lookup(entries, key) is None {
            assert forall|i: int| 0 <= i < entries.len() implies (#[trigger] entries[i]).0 != key by {
                if i > 0 {
                    assert(tail[i - 1] == entries[i]);
                }
            }
        } else if entries[0].0 != key {
            let i = choose|i: int| 0 <= i < tail.len() && (#[trigger] tail[i]).0 == key;
            assert(entries[i + 1].0 == key);
        }
    }
}

/// Whether `a` stands before `b`.
fn precedes(a: &[u8], b: &[u8]) -> (before: bool)
    ensures
        before == grammar::key_before(a@, b@),
{
    let mut i: usize = 0;
    assert(a@.skip(0) =~= a@ && b@.skip(0) =~= b@);
    while i < a.len() && i < b.len()
        invariant
            i <= a@.len(),
            i <= b@.len(),
            grammar::key_before(a@, b@) == grammar::key_before(
                a@.skip(i as int),
                b@.skip(i as int),
            ),
        decreases a@.len() - i,
    {
        if a[i] != b[i] {
            return a[i] < b[i];
        }
        assert(a@.skip(i as int).drop_first() =~= a@.skip(i + 1));
        assert(b@.skip(i as int).drop_first() =~= b@.skip(i + 1));
        i = i + 1;
    }
    i < b.len()
}

impl BencodeDict {
    /// The keys stand in order, each once.
    pub open spec fn well_formed(&self) -> bool {
        grammar::keys_ascending(self@)
    }

    /// An empty dictionary.
    pub fn new() -> (out: Self)
        ensures
            out.well_formed(),
            out@.len() == 0,
    {
        BencodeDict { entries: Vec::new() }
    }

    /// The number of entries.
    pub fn len(&self) -> (n: usize)
        ensures
            n == self@.len(),
    {
        self.entries.len()
    }

    /// What `key` stands for.
    pub fn get(&self, key: &[u8]) -> (out: Option<&BencodeValue>)
        ensures
            same_entry(out, grammar::lookup(self@, key@)),
    {
        let mut i: usize = 0;
        assert(self@.skip(0) =~= self@);
        while i < self.entries.len()
            invariant
                i <= self.entries@.len(),
                self@.len() == self.entries@.len(),
                grammar::lookup(self@, key@) == grammar::lookup(self@.skip(i as int), key@),
            decreases self.entries@.len() - i,
        {
            assert(self@[i as int] == (
                self.entries@[i as int].0@,
                self.entries@[i as int].1@,
            ));
            if same_bytes(self.entries[i].0.as_slice(), key) {
                return Some(&self.entries[i].1);
            }
            assert(self@.skip(i as int).drop_first() =~= self@.skip(i + 1));
            i = i + 1;
        }
        None
    }

    /// Makes `key` stand for `value`; what it stood for before comes back.
    pub fn insert(&mut self, key: Vec<u8>, value: BencodeValue) -> (out: Option<BencodeValue>)
        requires
            old(self).well_formed(),
        ensures
            final(self).well_formed(),
            forall|k: Seq<u8>| #[trigger]
                grammar::lookup(final(self)@, k) == if k == key@ {
                    Some(value@)
                } else {
                    grammar::lookup(old(self)@, k)
                },
            match out {
                Some(v) => grammar::lookup(old(self)@, key@) == Some(v@),
                None => grammar::lookup(old(self)@, key@) is None,
            },
    {
        let ghost before = self@;
        let ghost new_key = key@;
        let ghost new_value = value@;
        let mut i: usize = 0;
        while i < self.entries.len() && precedes(self.entries[i].0.as_slice(), key.as_slice())
            invariant
                i <= self.entries@.len(),
                self@ == before,
                self@.len() == self.entries@.len(),
                forall|j: int| 0 <= j < i ==> grammar::key_before((#[trigger] before[j]).0, key@),
            decreases self.entries@.len() - i,
        {
            i = i + 1;
        }
        let replace = i < self.entries.len() && same_bytes(
            self.entries[i].0.as_slice(),
            key.as_slice(),
        );
        proof {
            if i < before.len() {
                laws::lemma_key_total(before[i as int].0, new_key);
            }
            assert forall|j: int| 0 <= j < i implies (#[trigger] before[j]).0 != new_key by {
                laws::lemma_key_irreflexive(new_key);
            }
            assert forall|j: int| i < j < before.len() || (i == j < before.len() && !replace)
                implies grammar::key_before(new_key, (#[trigger] before[j]).0) by {
                if i < j {
                    assert(grammar::key_before(before[i as int].0, before[j].0));
                    if !replace {
                        laws::lemma_key_transitive(new_key, before[i as int].0, before[j].0);
                    }
                }
            }
            lemma_lookup_none(before, new_key);
        }
        let mut out: Option<BencodeValue> = None;
        if replace {
            proof {
                lemma_lookup_at(before, i as int);
            }
            let (_, previous) = self.entries.remove(i);
            out = Some(previous);
        } else {
            assert forall|j: int| 0 <= j < before.len() implies (#[trigger] before[j]).0
                != new_key by {
                laws::lemma_key_irreflexive(new_key);
            }
        }
        self.entries.insert(i, (key, value));
        proof {
            let after = self@;
            let shift: int = if replace { 0 } else { 1 };
            assert(after[i as int] == (new_key, new_value));
            assert forall|j: int| 0 <= j < i implies #[trigger] after[j] == before[j] by {}
            assert forall|j: int| i < j < after.len() implies #[trigger] after[j] == before[j
                - shift] by {}
            assert forall|a: int, b: int| 0 <= a < b < after.len() implies grammar::key_before(
                #[trigger] after[a].0,
                #[trigger] after[b].0,
            ) by {
                let x: int = if a <= i { a } else { a - shift };
                let y: int = if b <= i { b } else { b - shift };
                if a != i && b != i {
                    assert(grammar::key_before(before[x].0, before[y].0));
                } else if a == i {
                    assert(grammar::key_before(new_key, before[y].0));
                } else {
                    assert(grammar::key_before(before[x].0, new_key));
                }
            }
            assert forall|k: Seq<u8>| #[trigger]
                grammar::lookup(after, k) == if k == new_key {
                    Some(new_value)
                } else {
                    grammar::lookup(before, k)
                } by {
                lemma_lookup_none(after, k);
                lemma_lookup_none(before, k);
                if k == new_key {
                    lemma_lookup_at(after, i as int);
                } else if grammar::lookup(before, k) is Some {
                    let j = choose|j: int| 0 <= j < before.len() && (#[trigger] before[j]).0 == k;
                    lemma_lookup_at(before, j);
                    let z: int = if j < i { j } else { j + shift };
                    assert(after[z] == before[j]);
                    lemma_lookup_at(after, z);
                } else {
                    assert forall|j: int| 0 <= j < after.len() implies (#[trigger] after[j]).0
                        != k by {
                        if j < i {
                            assert(before[j].0 != k);
                        } else if j > i {
                            assert(before[j - shift].0 != k);
                        }
                    }
                }
            }
        }
        out
    }
}

/// A copy of `v`.
fn copy_value(v: &BencodeValue) -> (out: BencodeValue)
    ensures
        out@ == v@,
    decreases v,
{
    match v {
        BencodeValue::Int(n) => BencodeValue::Int(*n),
        BencodeValue::Bytes(b) => BencodeValue::Bytes(copy_bytes(b.as_slice())),
        BencodeValue::List(items) => {
            let mut copies: Vec<BencodeValue> = Vec::new();
            let mut i: usize = 0;
            while i < items.len()
                invariant
                    i <= items@.len(),
                    i == copies@.len(),
                    *v == BencodeValue::List(*items),
                    forall|j: int| 0 <= j < i ==> (#[trigger] copies@[j])@ == items@[j]@,
                decreases items@.len() - i,
            {
                assert(decreases_to!(v => v->List_0));
                assert(decreases_to!(items => items@));
                assert(decreases_to!(items@ => items@[i as int]));
                let item = copy_value(&items[i]);
                copies.push(item);
                i = i + 1;
            }
            let out = BencodeValue::List(copies);
            assert(out@->List_0 =~= v@->List_0);
            out
        },
        BencodeValue::Dict(d) => {
            let out = BencodeValue::Dict(copy_dict(d));
            out
        },
    }
}

/// A copy of `d`.
fn copy_dict(d: &BencodeDict) -> (out: BencodeDict)
    ensures
        out@ == d@,
    decreases d,
{
    let mut copies: Vec<(Vec<u8>, BencodeValue)> = Vec::new();
    let mut i: usize = 0;
    while i < d.entries.len()
        invariant
            i <= d.entries@.len(),
            i == copies@.len(),
            forall|j: int|
                0 <= j < i ==> (#[trigger] copies@[j]).0@ == d.entries@[j].0@ && copies@[j].1@
                    == d.entries@[j].1@,
        decreases d.entries@.len() - i,
    {
        let key = copy_bytes(d.entries[i].0.as_slice());
        let value = copy_value(&d.entries[i].1);
        copies.push((key, value));
        i = i + 1;
    }
    let out = BencodeDict { entries: copies };
    assert(out@ =~= d@);
    out
}

impl Clone for BencodeValue {
    fn clone(&self) -> (out: Self)
        ensures
            out@ == self@,
    {
        copy_value(self)
    }
}

impl Clone for BencodeDict {
    fn clone(&self) -> (out: Self)
        ensures
            out@ == self@,
    {
        copy_dict(self)
    }
}

} // verus!
