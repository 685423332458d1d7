//! What holds of the bencode format as a whole.
use vstd::prelude::*;

use crate::bencode::grammar;
use crate::bencode::grammar::Bencode;
use crate::text;

verus! {

/// Where the first `byte` stands.
pub proof fn lemma_position(s: Seq<u8>, byte: u8, k: int)
    requires
        0 <= k <= s.len(),
        forall|i: int| 0 <= i < k ==> #[trigger] s[i] != byte,
        k < s.len() ==> s[k] == byte,
    ensures
        grammar::position(s, byte) == k,
    decreases s.len(),
{
    if s.len() > 0 && k > 0 {
        assert(s[0] != byte);
        assert forall|i: int| 0 <= i < k - 1 implies #[trigger] s.drop_first()[i] != byte by {
            assert(s.drop_first()[i] == s[i + 1]);
        }
        lemma_position(s.drop_first(), byte, k - 1);
    }
}

/// A position is the first one with the byte.
pub proof fn lemma_position_first(s: Seq<u8>, byte: u8)
    ensures
        ({
            let k = grammar::position(s, byte);
            &&& 0 <= k <= s.len()
            &&& forall|i: int| 0 <= i < k ==> #[trigger] s[i] != byte
            &&& k < s.len() ==> s[k] == byte
        }),
    decreases s.len(),
{
    if s.len() > 0 && s[0] != byte {
        lemma_position_first(s.drop_first(), byte);
        let k = grammar::position(s, byte);
        assert forall|i: int| 0 <= i < k implies #[trigger] s[i] != byte by {
            if i > 0 {
                assert(s.drop_first()[i - 1] == s[i]);
            }
        }
    }
}

/// No key stands before itself.
pub proof fn lemma_key_irreflexive(a: Seq<u8>)
    ensures
        !grammar::key_before(a, a),
    decreases a.len(),
{
    if a.len() > 0 {
        lemma_key_irreflexive(a.drop_first());
    }
}

/// The order of keys is transitive.
pub proof fn lemma_key_transitive(a: Seq<u8>, b: Seq<u8>, c: Seq<u8>)
    requires
        grammar::key_before(a, b),
        grammar::key_before(b, c),
    ensures
        grammar::key_before(a, c),
    decreases a.len(),
{
    if a.len() > 0 && a[0] == b[0] && b[0] == c[0] {
        lemma_key_transitive(a.drop_first(), b.drop_first(), c.drop_first());
    }
}

/// Of two different keys one stands before the other.
pub proof fn lemma_key_total(a: Seq<u8>, b: Seq<u8>)
    ensures
        a == b || grammar::key_before(a, b) || grammar::key_before(b, a),
    decreases a.len(),
{
    if a.len() > 0 && b.len() > 0 && a[0] == b[0] {
        lemma_key_total(a.drop_first(), b.drop_first());
        if a.drop_first() == b.drop_first() {
            assert(a =~= seq![a[0]] + a.drop_first());
            assert(b =~= seq![b[0]] + b.drop_first());
        }
    } else if a.len() == 0 && b.len() == 0 {
        assert(a =~= b);
    }
}

/// No written value starts like the end of a list or dictionary.
proof fn lemma_encoding_start(v: Bencode)
    ensures
        grammar::encoding(v).len() > 1,
        grammar::encoding(v)[0] != 101,
{
    match v {
        Bencode::Bytes(b) => {
            text::lemma_digits_value(b.len());
            assert(text::is_digit(text::digits(b.len())[0]));
        },
        _ => {},
    }
}

/// A written byte string is read back.
proof fn lemma_bytes_read_back(b: Seq<u8>, rest: Seq<u8>)
    requires
        b.len() <= usize::MAX,
    ensures
        grammar::decoded(grammar::encoded_bytes(b) + rest) == Ok::<_, Seq<char>>(
            (Bencode::Bytes(b), grammar::encoded_bytes(b).len() as int),
        ),
{
    let number = text::digits(b.len());
    let s = grammar::encoded_bytes(b) + rest;
    let k = number.len() as int;
    text::lemma_digits_value(b.len());
    assert forall|i: int| 0 <= i < k implies #[trigger] s[i] != 58u8 by {
        assert(s[i] == number[i]);
        assert(text::is_digit(number[i]));
    }
    assert(s[k] == 58);
    lemma_position(s, 58, k);
    assert(s.take(k) =~= number);
    assert forall|i: int| 0 <= i < number.len() implies #[trigger] number[i] < 128 by {
        assert(text::is_digit(number[i]));
    }
    text::lemma_ascii_utf8(number);
    assert(text::is_digit(number[0]));
    assert(s[0] == number[0]);
    assert(s.subrange(k + 1, k + 1 + b.len()) =~= b);
}

/// What is written of a value is read back as that value, whatever follows it.
pub proof fn law_encoding_read_back(v: Bencode, rest: Seq<u8>)
    requires
        grammar::valid(v),
    ensures
        grammar::decoded(grammar::encoding(v) + rest) == Ok::<_, Seq<char>>(
            (v, grammar::encoding(v).len() as int),
        ),
    decreases v, 0nat,
{
    let s = grammar::encoding(v) + rest;
    match v {
        Bencode::Int(n) => {
            let number = text::decimal(n);
            let k = number.len() + 1;
            text::lemma_decimal_value(n);
            assert forall|i: int| 0 <= i < number.len() implies #[trigger] number[i] < 128
                && number[i] != 101 by {
                if text::canonical_digits(number) {
                    assert(text::is_digit(number[i]));
                } else if i > 0 {
                    assert(text::is_digit(number.drop_first()[i - 1]));
                }
            }
            assert forall|i: int| 0 <= i < k implies #[trigger] s[i] != 101u8 by {
                if i > 0 {
                    assert(s[i] == number[i - 1]);
                }
            }
            assert(s[k as int] == 101);
            lemma_position(s, 101, k as int);
            assert(s.subrange(1, k as int) =~= number);
            text::lemma_ascii_utf8(number);
        },
        Bencode::Bytes(b) => {
            lemma_bytes_read_back(b, rest);
        },
        Bencode::List(items) => {
            lemma_items_read_back(items, 0, rest);
            assert(s.drop_first() =~= grammar::encoded_items(items, 0) + seq![101u8] + rest);
            assert(items.skip(0) =~= items);
        },
        Bencode::Dict(entries) => {
            lemma_entries_read_back(entries, 0, rest);
            assert(s.drop_first() =~= grammar::encoded_entries(entries, 0) + seq![101u8] + rest);
            assert(entries.skip(0) =~= entries);
        },
    }
}

proof fn lemma_items_read_back(items: Seq<Bencode>, k: nat, rest: Seq<u8>)
    requires
        forall|i: int| 0 <= i < items.len() ==> grammar::valid(#[trigger] items[i]),
        k <= items.len(),
    ensures
        grammar::decoded_items(grammar::encoded_items(items, k) + seq![101u8] + rest) == Ok::<
            _,
            Seq<char>,
        >((items.skip(k as int), grammar::encoded_items(items, k).len() as int + 1)),
    decreases items, items.len() - k,
{
    let s = grammar::encoded_items(items, k) + seq![101u8] + rest;
    if k == items.len() {
        assert(items.skip(k as int) =~= Seq::<Bencode>::empty());
    } else {
        let item = items[k as int];
        let tail = grammar::encoded_items(items, k + 1) + seq![101u8] + rest;
        lemma_encoding_start(item);
        assert(grammar::valid(items[k as int]));
        law_encoding_read_back(item, tail);
        lemma_items_read_back(items, k + 1, rest);
        assert(s =~= grammar::encoding(item) + tail);
        assert(s.skip(grammar::encoding(item).len() as int) =~= tail);
        assert(items.skip(k as int) =~= seq![item] + items.skip(k as int + 1));
    }
}

proof fn lemma_entries_read_back(entries: Seq<(Seq<u8>, Bencode)>, k: nat, rest: Seq<u8>)
    requires
        grammar::keys_ascending(entries),
        forall|i: int|
            0 <= i < entries.len() ==> (#[trigger] entries[i]).0.len() <= usize::MAX
                && grammar::valid(entries[i].1),
        k <= entries.len(),
    ensures
        grammar::decoded_entries(
            grammar::encoded_entries(entries, k) + seq![101u8] + rest,
            if k == 0 {
                None
            } else {
                Some(entries[k - 1].0)
            },
        ) == Ok::<_, Seq<char>>(
            (entries.skip(k as int), grammar::encoded_entries(entries, k).len() as int + 1),
        ),
    decreases entries, entries.len() - k,
{
    let s = grammar::encoded_entries(entries, k) + seq![101u8] + rest;
    if k == entries.len() {
        assert(entries.skip(k as int) =~= Seq::<(Seq<u8>, Bencode)>::empty());
    } else {
        let (key, value) = entries[k as int];
        let tail = grammar::encoded_entries(entries, k + 1) + seq![101u8] + rest;
        let after_key = grammar::encoding(value) + tail;
        lemma_encoding_start(Bencode::Bytes(key));
        lemma_encoding_start(value);
        lemma_bytes_read_back(key, after_key);
        assert(entries[k as int].0.len() <= usize::MAX);
        law_encoding_read_back(value, tail);
        lemma_entries_read_back(entries, k + 1, rest);
        let n = grammar::encoded_bytes(key).len() as int;
        let m = grammar::encoding(value).len() as int;
        assert(s =~= grammar::encoded_bytes(key) + after_key);
        assert(s.skip(n) =~= after_key);
        assert(s.skip(n + m) =~= tail);
        assert(entries.skip(k as int) =~= seq![(key, value)] + entries.skip(k as int + 1));
        assert(k > 0 ==> grammar::key_before(entries[k - 1].0, entries[k as int].0));
    }
}

/// Items written from the second on are the items after the first.
proof fn lemma_items_shift(item: Bencode, items: Seq<Bencode>, k: nat)
    ensures
        grammar::encoded_items(seq![item] + items, k + 1) == grammar::encoded_items(items, k),
    decreases items.len() - k,
{
    if k < items.len() {
        lemma_items_shift(item, items, k + 1);
        assert((seq![item] + items)[k as int + 1] == items[k as int]);
    }
}

proof fn lemma_entries_shift(
    entry: (Seq<u8>, Bencode),
    entries: Seq<(Seq<u8>, Bencode)>,
    k: nat,
)
    ensures
        grammar::encoded_entries(seq![entry] + entries, k + 1) == grammar::encoded_entries(
            entries,
            k,
        ),
    decreases entries.len() - k,
{
    if k < entries.len() {
        lemma_entries_shift(entry, entries, k + 1);
        assert((seq![entry] + entries)[k as int + 1] == entries[k as int]);
    }
}

/// What is read is a valid value, and the bytes that it was read from are the
/// only way to write it.
pub proof fn law_decoded_written_so(s: Seq<u8>)
    ensures
        grammar::decoded(s) matches Ok((v, n)) ==> {
            &&& grammar::valid(v)
            &&& 0 < n <= s.len()
            &&& grammar::encoding(v) == s.take(n)
        },
    decreases s.len(), 0nat,
{
    if s.len() == 0 {
    } else if s[0] == 105 {
        lemma_position_first(s, 101);
        let end = grammar::position(s, 101);
        if let Ok((v, n)) = grammar::decoded(s) {
            let number = s.subrange(1, end);
            text::lemma_value_decimal(number);
            assert(grammar::encoding(v) =~= s.take(n));
        }
    } else if s[0] == 108 {
        lemma_items_written_so(s.drop_first());
        if let Ok((v, n)) = grammar::decoded(s) {
            let items = grammar::encoded_items(v->List_0, 0);
            assert(grammar::encoding(v) =~= seq![108u8] + (items + seq![101u8]));
            assert(s.take(n) =~= seq![108u8] + s.drop_first().take(n - 1));
        }
    } else if s[0] == 100 {
        lemma_entries_written_so(s.drop_first(), None);
        if let Ok((v, n)) = grammar::decoded(s) {
            let entries = grammar::encoded_entries(v->Dict_0, 0);
            assert(grammar::encoding(v) =~= seq![100u8] + (entries + seq![101u8]));
            assert(s.take(n) =~= seq![100u8] + s.drop_first().take(n - 1));
        }
    } else if text::is_digit(s[0]) {
        lemma_position_first(s, 58);
        let colon = grammar::position(s, 58);
        if let Ok((v, n)) = grammar::decoded(s) {
            text::lemma_value_digits(s.take(colon));
            assert(grammar::encoding(v) =~= s.take(n));
        }
    }
}

proof fn lemma_items_written_so(s: Seq<u8>)
    ensures
        grammar::decoded_items(s) matches Ok((items, n)) ==> {
            &&& forall|i: int| 0 <= i < items.len() ==> grammar::valid(#[trigger] items[i])
            &&& 0 < n <= s.len()
            &&& grammar::encoded_items(items, 0) + seq![101u8] == s.take(n)
        },
    decreases s.len(), 1nat,
{
    if s.len() == 0 {
    } else if s[0] == 101 {
        assert(seq![101u8] =~= s.take(1));
        assert(Seq::<u8>::empty() + seq![101u8] =~= seq![101u8]);
    } else if let Ok((all, total)) = grammar::decoded_items(s) {
        law_decoded_written_so(s);
        let (item, n) = grammar::decoded(s)->Ok_0;
        lemma_items_written_so(s.skip(n));
        let (items, m) = grammar::decoded_items(s.skip(n))->Ok_0;
        assert(all[0] == item);
        lemma_items_shift(item, items, 0);
        assert(s.take(n + m) =~= s.take(n) + s.skip(n).take(m));
        assert(grammar::encoded_items(all, 0) + seq![101u8] =~= s.take(total));
        assert forall|i: int| 0 <= i < all.len() implies grammar::valid(#[trigger] all[i]) by {
            if i > 0 {
                assert(all[i] == items[i - 1]);
            }
        }
    }
}

proof fn lemma_entries_written_so(s: Seq<u8>, last: Option<Seq<u8>>)
    ensures
        grammar::decoded_entries(s, last) matches Ok((entries, n)) ==> {
            &&& grammar::keys_ascending(entries)
            &&& forall|i: int|
                0 <= i < entries.len() ==> (#[trigger] entries[i]).0.len() <= usize::MAX
                    && grammar::valid(entries[i].1)
            &&& forall|i: int|
                0 <= i < entries.len() && last is Some ==> grammar::key_before(
                    last->0,
                    (#[trigger] entries[i]).0,
                )
            &&& 0 < n <= s.len()
            &&& grammar::encoded_entries(entries, 0) + seq![101u8] == s.take(n)
        },
    decreases s.len(), 1nat,
{
    if s.len() == 0 {
    } else if s[0] == 101 {
        assert(seq![101u8] =~= s.take(1));
        assert(Seq::<u8>::empty() + seq![101u8] =~= seq![101u8]);
    } else if let Ok((all, total)) = grammar::decoded_entries(s, last) {
        law_decoded_written_so(s);
        let (key, n) = grammar::decoded(s)->Ok_0;
        law_decoded_written_so(s.skip(n));
        let (value, m) = grammar::decoded(s.skip(n))->Ok_0;
        let k = key->Bytes_0;
        lemma_entries_written_so(s.skip(n + m), Some(k));
        let (entries, r) = grammar::decoded_entries(s.skip(n + m), Some(k))->Ok_0;
        assert(all[0] == (k, value));
        lemma_entries_shift((k, value), entries, 0);
        assert(s.take(total) =~= s.take(n) + s.skip(n).take(m) + s.skip(n + m).take(r));
        assert(grammar::encoded_entries(all, 0) + seq![101u8] =~= s.take(total));
        assert forall|i: int| 0 <= i < all.len() implies (#[trigger] all[i]).0.len() <= usize::MAX
            && grammar::valid(all[i].1) by {
            if i > 0 {
                assert(all[i] == entries[i - 1]);
            }
        }
        assert forall|i: int| 0 <= i < all.len() && last is Some implies grammar::key_before(
            last->0,
            (#[trigger] all[i]).0,
        ) by {
            if i > 0 {
                assert(all[i] == entries[i - 1]);
                lemma_key_transitive(last->0, k, all[i].0);
            }
        }
        assert forall|i: int, j: int| 0 <= i < j < all.len() implies grammar::key_before(
            #[trigger] all[i].0,
            #[trigger] all[j].0,
        ) by {
            assert(all[j] == entries[j - 1]);
            if i > 0 {
                assert(all[i] == entries[i - 1]);
            }
        }
    }
}

/// Different values are never written alike, not even where one is written at
/// the start of the other.
pub proof fn law_encoding_unambiguous(v: Bencode, w: Bencode, rest: Seq<u8>)
    requires
        grammar::valid(v),
        grammar::valid(w),
        grammar::encoding(v) + rest == grammar::encoding(w),
    ensures
        v == w,
        rest.len() == 0,
{
    law_encoding_read_back(v, rest);
    law_encoding_read_back(w, Seq::empty());
    assert(grammar::encoding(w) + Seq::<u8>::empty() =~= grammar::encoding(w));
}

/// Bytes are read as a value exactly where they start with a written value.
pub proof fn law_decoded_iff_written(s: Seq<u8>, v: Bencode, n: int)
    ensures
        grammar::decoded(s) == Ok::<_, Seq<char>>((v, n)) <==> {
            &&& grammar::valid(v)
            &&& n == grammar::encoding(v).len()
            &&& n <= s.len()
            &&& s.take(n) == grammar::encoding(v)
        },
{
    law_decoded_written_so(s);
    if grammar::valid(v) && n == grammar::encoding(v).len() && n <= s.len() && s.take(n)
        == grammar::encoding(v) {
        law_encoding_read_back(v, s.skip(n));
        assert(grammar::encoding(v) + s.skip(n) =~= s);
    }
}

/// How values are written, byte by byte: a number between `i` and `e`, a byte
/// string behind its length and a colon, a list between `l` and `e`, a dictionary
/// between `d` and `e`.
pub proof fn law_written_form(
    n: int,
    b: Seq<u8>,
    items: Seq<Bencode>,
    v: Bencode,
    entries: Seq<(Seq<u8>, Bencode)>,
    key: Seq<u8>,
)
    ensures
        grammar::encoding(Bencode::Int(n)) == seq![105u8] + text::decimal(n) + seq![101u8],
        grammar::encoding(Bencode::Bytes(b)) == text::digits(b.len()) + seq![58u8] + b,
        grammar::encoding(Bencode::List(Seq::empty())) == seq![108u8, 101],
        grammar::encoding(Bencode::List(items.push(v))) == grammar::encoding(
            Bencode::List(items),
        ).drop_last() + grammar::encoding(v) + seq![101u8],
        grammar::encoding(Bencode::Dict(Seq::empty())) == seq![100u8, 101],
        grammar::encoding(Bencode::Dict(entries.push((key, v)))) == grammar::encoding(
            Bencode::Dict(entries),
        ).drop_last() + grammar::encoding(Bencode::Bytes(key)) + grammar::encoding(v)
            + seq![101u8],
{
    let none: Seq<Bencode> = Seq::empty();
    assert(grammar::encoded_items(none, 0) =~= Seq::empty());
    assert(grammar::encoding(Bencode::List(none)) =~= seq![108u8, 101]);
    lemma_items_pushed(items, v, 0);
    assert(grammar::encoding(Bencode::List(items)).drop_last() =~= seq![108u8]
        + grammar::encoded_items(items, 0));
    assert(grammar::encoding(Bencode::List(items.push(v))) =~= grammar::encoding(
        Bencode::List(items),
    ).drop_last() + grammar::encoding(v) + seq![101u8]);
    let bare: Seq<(Seq<u8>, Bencode)> = Seq::empty();
    assert(grammar::encoded_entries(bare, 0) =~= Seq::empty());
    assert(grammar::encoding(Bencode::Dict(bare)) =~= seq![100u8, 101]);
    lemma_entries_pushed(entries, key, v, 0);
    assert(grammar::encoding(Bencode::Dict(entries)).drop_last() =~= seq![100u8]
        + grammar::encoded_entries(entries, 0));
    assert(grammar::encoding(Bencode::Dict(entries.push((key, v)))) =~= grammar::encoding(
        Bencode::Dict(entries),
    ).drop_last() + grammar::encoding(Bencode::Bytes(key)) + grammar::encoding(v) + seq![101u8]);
}

proof fn lemma_items_pushed(items: Seq<Bencode>, v: Bencode, k: nat)
    requires
        k <= items.len(),
    ensures
        grammar::encoded_items(items.push(v), k) == grammar::encoded_items(items, k)
            + grammar::encoding(v),
    decreases items.len() - k,
{
    let more = items.push(v);
    if k < items.len() {
        lemma_items_pushed(items, v, k + 1);
        assert(more[k as int] == items[k as int]);
        assert(grammar::encoded_items(more, k) =~= grammar::encoded_items(items, k)
            + grammar::encoding(v));
    } else {
        assert(more[k as int] == v);
        assert(grammar::encoded_items(more, k + 1) =~= Seq::empty());
        assert(grammar::encoded_items(more, k) =~= grammar::encoded_items(items, k)
            + grammar::encoding(v));
    }
}

proof fn lemma_entries_pushed(
    entries: Seq<(Seq<u8>, Bencode)>,
    key: Seq<u8>,
    v: Bencode,
    k: nat,
)
    requires
        k <= entries.len(),
    ensures
        grammar::encoded_entries(entries.push((key, v)), k) == grammar::encoded_entries(entries, k)
            + grammar::encoding(Bencode::Bytes(key)) + grammar::encoding(v),
    decreases entries.len() - k,
{
    let more = entries.push((key, v));
    if k < entries.len() {
        lemma_entries_pushed(entries, key, v, k + 1);
        assert(more[k as int] == entries[k as int]);
        assert(grammar::encoded_entries(more, k) =~= grammar::encoded_entries(entries, k)
            + grammar::encoding(Bencode::Bytes(key)) + grammar::encoding(v));
    } else {
        assert(more[k as int] == (key, v));
        assert(grammar::encoded_entries(more, k + 1) =~= Seq::empty());
        assert(grammar::encoded_entries(more, k) =~= grammar::encoded_entries(entries, k)
            + grammar::encoding(Bencode::Bytes(key)) + grammar::encoding(v));
    }
}

/// Which values there are: numbers of 64 bits with a sign, byte strings, lists of
/// values, and dictionaries of values whose keys ascend. Nothing else is asked of a
/// value.
pub proof fn law_values(n: int, b: Seq<u8>, items: Seq<Bencode>, entries: Seq<(Seq<u8>, Bencode)>)
    ensures
        grammar::valid(Bencode::Int(n)) <==> -9223372036854775808 <= n <= 9223372036854775807,
        grammar::valid(Bencode::Bytes(b)) <==> b.len() <= usize::MAX,
        grammar::valid(Bencode::List(items)) <==> forall|i: int|
            0 <= i < items.len() ==> grammar::valid(#[trigger] items[i]),
        grammar::valid(Bencode::Dict(entries)) <==> {
            &&& forall|i: int, j: int|
                0 <= i < j < entries.len() ==> grammar::key_before(
                    #[trigger] entries[i].0,
                    #[trigger] entries[j].0,
                )
            &&& forall|i: int|
                0 <= i < entries.len() ==> (#[trigger] entries[i]).0.len() <= usize::MAX
                    && grammar::valid(entries[i].1)
        },
{
    reveal_with_fuel(grammar::valid, 2);
    if forall|i: int| 0 <= i < items.len() ==> grammar::valid(#[trigger] items[i]) {
        assert(grammar::valid(Bencode::List(items)));
    }
    let list = Bencode::List(items);
    if grammar::valid(list) {
        assert forall|i: int| 0 <= i < items.len() implies grammar::valid(#[trigger] items[i]) by {
            assert(grammar::valid(list->List_0[i]));
        }
    }
    let dict = Bencode::Dict(entries);
    if grammar::valid(dict) {
        assert forall|i: int| 0 <= i < entries.len() implies (#[trigger] entries[i]).0.len()
            <= usize::MAX && grammar::valid(entries[i].1) by {
            assert(grammar::valid(dict->Dict_0[i].1));
        }
    }
}

/// Keys are ordered by the first byte in which they differ, and a key comes before
/// those that it begins.
pub proof fn law_key_order(a: Seq<u8>, b: Seq<u8>, p: int)
    requires
        0 <= p <= a.len(),
        p <= b.len(),
        a.take(p) == b.take(p),
        p == a.len() || p == b.len() || a[p] != b[p],
    ensures
        grammar::key_before(a, b) <==> p < b.len() && (p == a.len() || a[p] < b[p]),
    decreases p,
{
    if p > 0 {
        assert(a[0] == a.take(p)[0] && b[0] == b.take(p)[0]);
        let (x, y) = (a.drop_first(), b.drop_first());
        assert forall|i: int| 0 <= i < p - 1 implies #[trigger] x[i] == y[i] by {
            assert(a[i + 1] == a.take(p)[i + 1] && b[i + 1] == b.take(p)[i + 1]);
        }
        assert(x.take(p - 1) =~= y.take(p - 1));
        law_key_order(x, y, p - 1);
    }
}

/// A key stands for the value of the first entry that has it, and for nothing where
/// none has.
pub proof fn law_lookup(entries: Seq<(Seq<u8>, Bencode)>, key: Seq<u8>, k: int)
    ensures
        0 <= k < entries.len() && entries[k].0 == key && (forall|i: int|
            0 <= i < k ==> (#[trigger] entries[i]).0 != key) ==> grammar::lookup(entries, key)
            == Some(entries[k].1),
        (forall|i: int| 0 <= i < entries.len() ==> (#[trigger] entries[i]).0 != key)
            ==> grammar::lookup(entries, key) is None,
    decreases entries.len(),
{
    if entries.len() > 0 && entries[0].0 != key {
        let rest = entries.drop_first();
        law_lookup(rest, key, k - 1);
        if 0 <= k < entries.len() && entries[k].0 == key && (forall|i: int|
            0 <= i < k ==> (#[trigger] entries[i]).0 != key) {
            assert forall|i: int| 0 <= i < k - 1 implies (#[trigger] rest[i]).0 != key by {
                assert(entries[i + 1].0 != key);
            }
        }
        if forall|i: int| 0 <= i < entries.len() ==> (#[trigger] entries[i]).0 != key {
            assert forall|i: int| 0 <= i < rest.len() implies (#[trigger] rest[i]).0 != key by {
                assert(entries[i + 1].0 != key);
            }
        }
    } else if entries.len() > 0 {
        assert(entries[0].0 == key);
    }
}

/// What a value is read as: each kind as what it is, and as nothing else; a byte
/// string also as the text that it encodes.
pub proof fn law_kinds(v: Bencode, t: Seq<char>)
    ensures
        grammar::int_of(v) is Some <==> v is Int,
        v matches Bencode::Int(n) ==> grammar::int_of(v) == Some(n),
        grammar::bytes_of(v) is Some <==> v is Bytes,
        v matches Bencode::Bytes(b) ==> grammar::bytes_of(v) == Some(b),
        grammar::list_of(v) is Some <==> v is List,
        v matches Bencode::List(items) ==> grammar::list_of(v) == Some(items),
        grammar::dict_of(v) is Some <==> v is Dict,
        v matches Bencode::Dict(entries) ==> grammar::dict_of(v) == Some(entries),
        grammar::text_of(v) == Some(t) <==> v == Bencode::Bytes(vstd::utf8::encode_utf8(t)),
{
    vstd::utf8::encode_utf8_valid_utf8(t);
    vstd::utf8::encode_utf8_decode_utf8(t);
    if let Bencode::Bytes(b) = v {
        if vstd::utf8::valid_utf8(b) {
            vstd::utf8::decode_utf8_encode_utf8(b);
        }
    }
}

} // verus!
