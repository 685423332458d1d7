//! What holds of every `.torrent` file that is read.
use vstd::prelude::*;
use vstd::utf8::*;

use crate::bencode::grammar;
use crate::bencode::grammar::Bencode;
use crate::digest;
use crate::metainfo;
use crate::metainfo::{FileModel, InfoModel, MetainfoModel};
use crate::unique;

verus! {

/// The digests one after the other are the bytes that they were read of, each of
/// twenty bytes and the first one first.
pub proof fn law_digests_joined(bytes: Seq<u8>, i: int, k: int)
    requires
        bytes.len() % 20 == 0,
    ensures
        metainfo::digests_in(bytes).flatten() == bytes,
        20 * metainfo::digests_in(bytes).len() == bytes.len(),
        0 <= i < metainfo::digests_in(bytes).len() ==> metainfo::digests_in(bytes)[i].len() == 20,
        0 <= i < metainfo::digests_in(bytes).len() && 0 <= k < 20 ==> metainfo::digests_in(
            bytes,
        )[i][k] == bytes[20 * i + k],
{
    let all = metainfo::digests_in(bytes);
    lemma_joined(all);
    all.lemma_flatten_and_flatten_alt_are_equivalent();
    assert(all.flatten_alt() =~= bytes) by {
        assert forall|p: int| 0 <= p < bytes.len() implies all.flatten_alt()[p] == bytes[p] by {
            assert(placed_at(all, p / 20, p % 20));
            assert(20 * (p / 20) + p % 20 == p);
        }
    }
}

/// Digests that are written one after the other are read back.
pub proof fn law_digests_read_back(pieces: Seq<Seq<u8>>)
    requires
        forall|i: int| 0 <= i < pieces.len() ==> (#[trigger] pieces[i]).len() == 20,
    ensures
        metainfo::digests_in(pieces.flatten()) == pieces,
        pieces.flatten().len() == 20 * pieces.len(),
{
    lemma_joined(pieces);
    pieces.lemma_flatten_and_flatten_alt_are_equivalent();
    let bytes = pieces.flatten();
    assert forall|i: int| 0 <= i < pieces.len() implies metainfo::digests_in(bytes)[i]
        == #[trigger] pieces[i] by {
        assert forall|k: int| 0 <= k < 20 implies bytes[20 * i + k] == pieces[i][k] by {
            assert(placed_at(pieces, i, k));
        }
        assert(bytes.subrange(20 * i, 20 * i + 20) =~= pieces[i]);
    }
    assert(metainfo::digests_in(bytes) =~= pieces);
}

/// Whether a byte of a digest stands where it belongs among them all.
spec fn placed_at(pieces: Seq<Seq<u8>>, i: int, k: int) -> bool {
    pieces.flatten_alt()[20 * i + k] == pieces[i][k]
}

proof fn lemma_joined(pieces: Seq<Seq<u8>>)
    requires
        forall|i: int| 0 <= i < pieces.len() ==> (#[trigger] pieces[i]).len() == 20,
    ensures
        pieces.flatten_alt().len() == 20 * pieces.len(),
        forall|i: int, k: int|
            0 <= i < pieces.len() && 0 <= k < 20 ==> #[trigger] placed_at(pieces, i, k),
    decreases pieces.len(),
{
    if pieces.len() > 0 {
        let rest = pieces.drop_last();
        assert forall|i: int| 0 <= i < rest.len() implies (#[trigger] rest[i]).len() == 20 by {
            assert(pieces[i].len() == 20);
        }
        lemma_joined(rest);
        assert(pieces[pieces.len() - 1].len() == 20);
        assert forall|i: int, k: int|
            0 <= i < pieces.len() && 0 <= k < 20 implies #[trigger] placed_at(pieces, i, k) by {
            if i < rest.len() {
                assert(placed_at(rest, i, k));
            }
        }
    }
}

/// What a key stands for in entries that follow others: what it stands for in
/// those, if it does.
pub proof fn lemma_lookup_joined(
    a: Seq<(Seq<u8>, Bencode)>,
    b: Seq<(Seq<u8>, Bencode)>,
    key: Seq<u8>,
)
    ensures
        grammar::lookup(a + b, key) == if grammar::lookup(a, key) is Some {
            grammar::lookup(a, key)
        } else {
            grammar::lookup(b, key)
        },
    decreases a.len(),
{
    if a.len() == 0 {
        assert(a + b =~= b);
    } else {
        lemma_lookup_joined(a.drop_first(), b, key);
        assert((a + b).drop_first() =~= a.drop_first() + b);
    }
}

/// What a key stands for in a single entry.
proof fn lemma_lookup_single(k: Seq<u8>, v: Bencode, key: Seq<u8>)
    ensures
        grammar::lookup(seq![(k, v)], key) == if k == key {
            Some(v)
        } else {
            None
        },
{
    reveal_with_fuel(grammar::lookup, 2);
    assert(seq![(k, v)].drop_first() =~= Seq::empty());
}

/// An entry, if there is a value for it.
pub open spec fn entry(name: Seq<char>, v: Option<Bencode>) -> Seq<(Seq<u8>, Bencode)> {
    match v {
        Some(value) => seq![(encode_utf8(name), value)],
        None => Seq::empty(),
    }
}

proof fn lemma_entry(name: Seq<char>, v: Option<Bencode>, key: Seq<u8>)
    ensures
        grammar::lookup(entry(name, v), key) == if encode_utf8(name) == key {
            v
        } else {
            None
        },
{
    if let Some(value) = v {
        lemma_lookup_single(encode_utf8(name), value, key);
    }
}

/// A text as a value.
pub open spec fn text_value(t: Seq<char>) -> Bencode {
    Bencode::Bytes(encode_utf8(t))
}

/// Texts as a list.
pub open spec fn text_values(ts: Seq<Seq<char>>) -> Bencode {
    Bencode::List(Seq::new(ts.len(), |i: int| text_value(ts[i])))
}

/// A file as a dictionary.
pub open spec fn file_value(f: FileModel) -> Bencode {
    Bencode::Dict(
        entry("length"@, Some(Bencode::Int(f.length))) + entry("path"@, Some(text_values(f.path))),
    )
}

/// Files as a list.
pub open spec fn file_values(fs: Seq<FileModel>) -> Bencode {
    Bencode::List(Seq::new(fs.len(), |i: int| file_value(fs[i])))
}

/// Tiers as a list of lists.
pub open spec fn tier_values(tiers: Seq<Seq<Seq<char>>>) -> Bencode {
    Bencode::List(Seq::new(tiers.len(), |i: int| text_values(tiers[i])))
}

/// The entries of the `info` of a torrent.
pub open spec fn info_entries(info: InfoModel) -> Seq<(Seq<u8>, Bencode)> {
    entry(
        "files"@,
        match info.files {
            Some(files) => Some(file_values(files)),
            None => None,
        },
    ) + entry(
        "length"@,
        match info.length {
            Some(n) => Some(Bencode::Int(n)),
            None => None,
        },
    ) + entry("name"@, Some(text_value(info.name))) + entry(
        "piece length"@,
        Some(Bencode::Int(info.piece_length)),
    ) + entry("pieces"@, Some(Bencode::Bytes(info.pieces.flatten())))
}

/// The entries of a torrent: the tiers are left out where there is only the one
/// tracker.
pub open spec fn torrent_entries(m: MetainfoModel, with_tiers: bool) -> Seq<(Seq<u8>, Bencode)> {
    entry("announce"@, Some(text_value(m.announce))) + entry(
        "announce-list"@,
        if with_tiers {
            Some(tier_values(m.announce_list))
        } else {
            None
        },
    ) + entry("info"@, Some(Bencode::Dict(info_entries(m.info))))
}

/// Whether a torrent can be written: no number is negative, every digest has
/// twenty bytes and every tier a tracker.
pub open spec fn writable(m: MetainfoModel) -> bool {
    &&& 0 <= m.info.piece_length
    &&& m.info.length matches Some(n) ==> 0 <= n
    &&& m.info.files matches Some(files) ==> forall|i: int|
        0 <= i < files.len() ==> 0 <= (#[trigger] files[i]).length
    &&& forall|i: int| 0 <= i < m.info.pieces.len() ==> (#[trigger] m.info.pieces[i]).len() == 20
    &&& forall|i: int| 0 <= i < m.announce_list.len() ==> (#[trigger] m.announce_list[i]).len() > 0
}

/// A torrent that is written is read back: its trackers, its name, its files with
/// their lengths and paths, the length of its pieces and their digests, all in
/// order. Its identity is the digest of how its `info` is written. What follows in
/// the file changes nothing.
pub proof fn law_torrent_read_back(m: MetainfoModel, rest: Seq<u8>)
    requires
        writable(m),
        grammar::valid(Bencode::Dict(torrent_entries(m, true))),
    ensures
        metainfo::file_said(
            grammar::encoding(Bencode::Dict(torrent_entries(m, true))) + rest,
        ) == Ok::<_, Seq<char>>(
            MetainfoModel {
                info_hash: digest::sha1(grammar::encoding(Bencode::Dict(info_entries(m.info)))),
                ..m
            },
        ),
{
    let top = Bencode::Dict(torrent_entries(m, true));
    crate::bencode::laws::law_encoding_read_back(top, rest);
    lemma_torrent_lookups(m, true);
    lemma_info_read_back(m.info);
    lemma_tiers(m.announce_list);
    lemma_text(m.announce);
}

/// Without tiers the only tracker is the one that the file names.
pub proof fn law_single_tracker_read_back(m: MetainfoModel, rest: Seq<u8>)
    requires
        writable(m),
        grammar::valid(Bencode::Dict(torrent_entries(m, false))),
    ensures
        metainfo::file_said(
            grammar::encoding(Bencode::Dict(torrent_entries(m, false))) + rest,
        ) == Ok::<_, Seq<char>>(
            MetainfoModel {
                announce_list: seq![seq![m.announce]],
                info_hash: digest::sha1(grammar::encoding(Bencode::Dict(info_entries(m.info)))),
                ..m
            },
        ),
{
    let top = Bencode::Dict(torrent_entries(m, false));
    crate::bencode::laws::law_encoding_read_back(top, rest);
    lemma_torrent_lookups(m, false);
    lemma_info_read_back(m.info);
    lemma_text(m.announce);
}

proof fn lemma_text(t: Seq<char>)
    ensures
        grammar::text_of(text_value(t)) == Some(t),
{
    encode_utf8_valid_utf8(t);
    encode_utf8_decode_utf8(t);
}

/// How long the names of the entries are, and how they begin.
proof fn lemma_names()
    ensures
        encode_utf8("files"@).len() == 5,
        encode_utf8("length"@).len() == 6,
        encode_utf8("length"@)[0] == 108,
        encode_utf8("name"@).len() == 4,
        encode_utf8("path"@).len() == 4,
        encode_utf8("piece length"@).len() == 12,
        encode_utf8("pieces"@).len() == 6,
        encode_utf8("pieces"@)[0] == 112,
        encode_utf8("announce"@).len() == 8,
        encode_utf8("announce-list"@).len() == 13,
        encode_utf8("info"@).len() == 4,
{
    reveal_strlit("files");
    reveal_strlit("length");
    reveal_strlit("name");
    reveal_strlit("path");
    reveal_strlit("piece length");
    reveal_strlit("pieces");
    reveal_strlit("announce");
    reveal_strlit("announce-list");
    reveal_strlit("info");
    is_ascii_chars_encode_utf8("files"@);
    is_ascii_chars_encode_utf8("length"@);
    is_ascii_chars_encode_utf8("name"@);
    is_ascii_chars_encode_utf8("path"@);
    is_ascii_chars_encode_utf8("piece length"@);
    is_ascii_chars_encode_utf8("pieces"@);
    is_ascii_chars_encode_utf8("announce"@);
    is_ascii_chars_encode_utf8("announce-list"@);
    is_ascii_chars_encode_utf8("info"@);
    assert("length"@[0] == 'l' && "pieces"@[0] == 'p');
    assert(encode_utf8("length"@)[0] == ("length"@[0]) as u8);
    assert(encode_utf8("pieces"@)[0] == ("pieces"@[0]) as u8);
}

proof fn lemma_texts(ts: Seq<Seq<char>>)
    ensures
        metainfo::texts_among(text_values(ts)->List_0) == ts,
    decreases ts.len(),
{
    let items = text_values(ts)->List_0;
    if ts.len() > 0 {
        lemma_texts(ts.drop_last());
        assert(items.drop_last() =~= text_values(ts.drop_last())->List_0);
        lemma_text(ts.last());
        assert(ts.drop_last().push(ts.last()) =~= ts);
    } else {
        assert(metainfo::texts_among(items) =~= ts);
    }
}

proof fn lemma_tiers(tiers: Seq<Seq<Seq<char>>>)
    requires
        forall|i: int| 0 <= i < tiers.len() ==> (#[trigger] tiers[i]).len() > 0,
    ensures
        metainfo::tiers_among(tier_values(tiers)->List_0) == tiers,
    decreases tiers.len(),
{
    let items = tier_values(tiers)->List_0;
    if tiers.len() > 0 {
        let rest = tiers.drop_last();
        assert forall|i: int| 0 <= i < rest.len() implies (#[trigger] rest[i]).len() > 0 by {
            assert(tiers[i].len() > 0);
        }
        lemma_tiers(rest);
        assert(items.drop_last() =~= tier_values(rest)->List_0);
        lemma_texts(tiers.last());
        assert(tiers[tiers.len() - 1].len() > 0);
        assert(rest.push(tiers.last()) =~= tiers);
    } else {
        assert(metainfo::tiers_among(items) =~= tiers);
    }
}

proof fn lemma_file(f: FileModel)
    requires
        0 <= f.length,
    ensures
        metainfo::file_of(file_value(f)) == Some(f),
{
    lemma_names();
    let a = entry("length"@, Some(Bencode::Int(f.length)));
    let b = entry("path"@, Some(text_values(f.path)));
    let (k, l) = (encode_utf8("length"@), encode_utf8("path"@));
    lemma_lookup_joined(a, b, k);
    lemma_lookup_joined(a, b, l);
    lemma_entry("length"@, Some(Bencode::Int(f.length)), k);
    lemma_entry("length"@, Some(Bencode::Int(f.length)), l);
    lemma_entry("path"@, Some(text_values(f.path)), l);
    lemma_texts(f.path);
}

proof fn lemma_files(fs: Seq<FileModel>)
    requires
        forall|i: int| 0 <= i < fs.len() ==> 0 <= (#[trigger] fs[i]).length,
    ensures
        metainfo::files_among(file_values(fs)->List_0) == fs,
    decreases fs.len(),
{
    let items = file_values(fs)->List_0;
    if fs.len() > 0 {
        let rest = fs.drop_last();
        assert forall|i: int| 0 <= i < rest.len() implies 0 <= (#[trigger] rest[i]).length by {
            assert(fs[i].length >= 0);
        }
        lemma_files(rest);
        assert(items.drop_last() =~= file_values(rest)->List_0);
        assert(fs[fs.len() - 1].length >= 0);
        lemma_file(fs.last());
        assert(rest.push(fs.last()) =~= fs);
    } else {
        assert(metainfo::files_among(items) =~= fs);
    }
}

/// What a name stands for in five entries, one after the other.
proof fn lemma_five(
    a: Seq<(Seq<u8>, Bencode)>,
    b: Seq<(Seq<u8>, Bencode)>,
    c: Seq<(Seq<u8>, Bencode)>,
    d: Seq<(Seq<u8>, Bencode)>,
    e: Seq<(Seq<u8>, Bencode)>,
    key: Seq<u8>,
)
    ensures
        grammar::lookup(a + b + c + d + e, key) == if grammar::lookup(a, key) is Some {
            grammar::lookup(a, key)
        } else if grammar::lookup(b, key) is Some {
            grammar::lookup(b, key)
        } else if grammar::lookup(c, key) is Some {
            grammar::lookup(c, key)
        } else if grammar::lookup(d, key) is Some {
            grammar::lookup(d, key)
        } else {
            grammar::lookup(e, key)
        },
{
    lemma_lookup_joined(a, b, key);
    lemma_lookup_joined(a + b, c, key);
    lemma_lookup_joined(a + b + c, d, key);
    lemma_lookup_joined(a + b + c + d, e, key);
}

proof fn lemma_info_lookup(info: InfoModel, name: Seq<char>)
    ensures
        ({
            let key = encode_utf8(name);
            let files = match info.files {
                Some(files) => Some(file_values(files)),
                None => None,
            };
            let length = match info.length {
                Some(n) => Some(Bencode::Int(n)),
                None => None,
            };
            let found = grammar::lookup(info_entries(info), key);
            &&& name == "files"@ ==> found == files
            &&& name == "length"@ ==> found == length
            &&& name == "name"@ ==> found == Some(text_value(info.name))
            &&& name == "piece length"@ ==> found == Some(Bencode::Int(info.piece_length))
            &&& name == "pieces"@ ==> found == Some(Bencode::Bytes(info.pieces.flatten()))
        }),
{
    lemma_names();
    let key = encode_utf8(name);
    let files = match info.files {
        Some(files) => Some(file_values(files)),
        None => None,
    };
    let length = match info.length {
        Some(n) => Some(Bencode::Int(n)),
        None => None,
    };
    let (x, y, z) = (
        Some(text_value(info.name)),
        Some(Bencode::Int(info.piece_length)),
        Some(Bencode::Bytes(info.pieces.flatten())),
    );
    lemma_five(
        entry("files"@, files),
        entry("length"@, length),
        entry("name"@, x),
        entry("piece length"@, y),
        entry("pieces"@, z),
        key,
    );
    lemma_entry("files"@, files, key);
    lemma_entry("length"@, length, key);
    lemma_entry("name"@, x, key);
    lemma_entry("piece length"@, y, key);
    lemma_entry("pieces"@, z, key);
}

proof fn lemma_info_read_back(info: InfoModel)
    requires
        0 <= info.piece_length,
        info.length matches Some(n) ==> 0 <= n,
        info.files matches Some(files) ==> forall|i: int|
            0 <= i < files.len() ==> 0 <= (#[trigger] files[i]).length,
        forall|i: int| 0 <= i < info.pieces.len() ==> (#[trigger] info.pieces[i]).len() == 20,
    ensures
        metainfo::info_said(info_entries(info)) == Ok::<_, Seq<char>>(info),
{
    lemma_info_lookup(info, "files"@);
    lemma_info_lookup(info, "length"@);
    lemma_info_lookup(info, "name"@);
    lemma_info_lookup(info, "piece length"@);
    lemma_info_lookup(info, "pieces"@);
    lemma_text(info.name);
    law_digests_read_back(info.pieces);
    if let Some(files) = info.files {
        lemma_files(files);
    }
}

proof fn lemma_torrent_lookups(m: MetainfoModel, with_tiers: bool)
    ensures
        ({
            let d = torrent_entries(m, with_tiers);
            &&& grammar::lookup(d, encode_utf8("announce"@)) == Some(text_value(m.announce))
            &&& grammar::lookup(d, encode_utf8("announce-list"@)) == if with_tiers {
                Some(tier_values(m.announce_list))
            } else {
                None
            }
            &&& grammar::lookup(d, encode_utf8("info"@)) == Some(
                Bencode::Dict(info_entries(m.info)),
            )
        }),
{
    lemma_names();
    let x = Some(text_value(m.announce));
    let y = if with_tiers {
        Some(tier_values(m.announce_list))
    } else {
        None
    };
    let z = Some(Bencode::Dict(info_entries(m.info)));
    let (a, b, c) = (entry("announce"@, x), entry("announce-list"@, y), entry("info"@, z));
    let (k, l, n) = (
        encode_utf8("announce"@),
        encode_utf8("announce-list"@),
        encode_utf8("info"@),
    );
    lemma_lookup_joined(a, b, k);
    lemma_lookup_joined(a, b, l);
    lemma_lookup_joined(a, b, n);
    lemma_lookup_joined(a + b, c, k);
    lemma_lookup_joined(a + b, c, l);
    lemma_lookup_joined(a + b, c, n);
    lemma_entry("announce"@, x, k);
    lemma_entry("announce"@, x, l);
    lemma_entry("announce"@, x, n);
    lemma_entry("announce-list"@, y, k);
    lemma_entry("announce-list"@, y, l);
    lemma_entry("announce-list"@, y, n);
    lemma_entry("info"@, z, n);
    lemma_entry("info"@, z, l);
}

/// What must stand under its key for an `info` to be read, and nothing else must.
pub proof fn law_info_needs(d: Seq<(Seq<u8>, Bencode)>)
    ensures
        ({
            let piece_length = grammar::lookup(d, encode_utf8("piece length"@));
            let pieces = grammar::lookup(d, encode_utf8("pieces"@));
            let name = grammar::lookup(d, encode_utf8("name"@));
            &&& metainfo::info_said(d) is Ok <==> {
                &&& piece_length is Some && piece_length->0 is Int
                &&& pieces is Some && pieces->0 is Bytes && pieces->0->Bytes_0.len() % 20 == 0
                &&& name is Some && name->0 is Bytes && valid_utf8(name->0->Bytes_0)
            }
            &&& metainfo::info_said(d) matches Ok(info) ==> {
                &&& (info.piece_length - piece_length->0->Int_0) % 0x1_0000_0000_0000_0000 == 0
                &&& info.pieces.flatten() == pieces->0->Bytes_0
                &&& encode_utf8(info.name) == name->0->Bytes_0
                &&& info.length is Some <==> grammar::lookup(d, encode_utf8("length"@)) is Some
                    && grammar::lookup(d, encode_utf8("length"@))->0 is Int
                &&& info.files is Some <==> grammar::lookup(d, encode_utf8("files"@)) is Some
                    && grammar::lookup(d, encode_utf8("files"@))->0 is List
            }
        }),
{
    if metainfo::info_said(d) is Ok {
        let pieces = grammar::lookup(d, encode_utf8("pieces"@))->0->Bytes_0;
        law_digests_joined(pieces, 0, 0);
        decode_utf8_encode_utf8(grammar::lookup(d, encode_utf8("name"@))->0->Bytes_0);
    }
}

/// What must stand under its key for a file to be read.
pub proof fn law_torrent_needs(top: Bencode, info_hash: Seq<u8>)
    ensures
        metainfo::metainfo_said(top, info_hash) is Ok <==> {
            &&& top is Dict
            &&& ({
                let announce = grammar::lookup(top->Dict_0, encode_utf8("announce"@));
                announce is Some && announce->0 is Bytes && valid_utf8(announce->0->Bytes_0)
            })
            &&& ({
                let info = grammar::lookup(top->Dict_0, encode_utf8("info"@));
                info is Some && info->0 is Dict && metainfo::info_said(info->0->Dict_0) is Ok
            })
        },
{
}

/// What is read of a file is what stands in it under these keys, whatever else
/// stands there: the tracker, the tiers or else the one tracker alone, and the
/// `info`.
pub proof fn law_torrent_fields(top: Bencode, info_hash: Seq<u8>)
    requires
        metainfo::metainfo_said(top, info_hash) is Ok,
    ensures
        ({
            let m = metainfo::metainfo_said(top, info_hash)->Ok_0;
            let d = top->Dict_0;
            let tiers = grammar::lookup(d, encode_utf8("announce-list"@));
            &&& grammar::lookup(d, encode_utf8("announce"@)) == Some(
                Bencode::Bytes(encode_utf8(m.announce)),
            )
            &&& tiers is Some && tiers->0 is List ==> m.announce_list == metainfo::tiers_among(
                tiers->0->List_0,
            )
            &&& tiers is None || !(tiers->0 is List) ==> m.announce_list == seq![seq![m.announce]]
            &&& Ok::<_, Seq<char>>(m.info) == metainfo::info_said(
                grammar::lookup(d, encode_utf8("info"@))->0->Dict_0,
            )
            &&& m.info_hash == info_hash
        }),
{
    let d = top->Dict_0;
    decode_utf8_encode_utf8(grammar::lookup(d, encode_utf8("announce"@))->0->Bytes_0);
}

/// What is read of an `info` is what stands in it under these keys.
pub proof fn law_info_fields(d: Seq<(Seq<u8>, Bencode)>)
    requires
        metainfo::info_said(d) is Ok,
    ensures
        ({
            let info = metainfo::info_said(d)->Ok_0;
            let length = grammar::lookup(d, encode_utf8("length"@));
            let files = grammar::lookup(d, encode_utf8("files"@));
            &&& info.piece_length == metainfo::unsigned(
                grammar::lookup(d, encode_utf8("piece length"@))->0->Int_0,
            )
            &&& length is Some && length->0 is Int ==> info.length == Some(
                metainfo::unsigned(length->0->Int_0),
            )
            &&& files is Some && files->0 is List ==> info.files == Some(
                metainfo::files_among(files->0->List_0),
            )
        }),
{
}

/// A file says what its first value says, and its identity is the digest of how the
/// `info` of that value is written.
pub proof fn law_file_read(data: Seq<u8>)
    ensures
        metainfo::file_said(data) is Ok <==> grammar::decoded(data) is Ok
            && metainfo::metainfo_said((grammar::decoded(data)->Ok_0).0, Seq::empty()) is Ok,
        metainfo::file_said(data) is Ok ==> metainfo::file_said(data) == metainfo::metainfo_said(
            (grammar::decoded(data)->Ok_0).0,
            digest::sha1(
                grammar::encoding(
                    grammar::lookup(
                        (grammar::decoded(data)->Ok_0).0->Dict_0,
                        encode_utf8("info"@),
                    )->0,
                ),
            ),
        ),
{
}

/// A list is read item by item, in order: texts, tiers with a text in them, and
/// files with a length and a path, whatever else a file has. Items that are
/// something else are skipped.
pub proof fn law_items_read(items: Seq<Bencode>, v: Bencode)
    ensures
        metainfo::texts_among(Seq::empty()) == Seq::<Seq<char>>::empty(),
        metainfo::tiers_among(Seq::empty()) == Seq::<Seq<Seq<char>>>::empty(),
        metainfo::files_among(Seq::empty()) == Seq::<FileModel>::empty(),
        v is Bytes && valid_utf8(v->Bytes_0) ==> metainfo::texts_among(items.push(v))
            == metainfo::texts_among(items).push(decode_utf8(v->Bytes_0)),
        !(v is Bytes && valid_utf8(v->Bytes_0)) ==> metainfo::texts_among(items.push(v))
            == metainfo::texts_among(items),
        v is List && metainfo::texts_among(v->List_0).len() > 0 ==> metainfo::tiers_among(
            items.push(v),
        ) == metainfo::tiers_among(items).push(metainfo::texts_among(v->List_0)),
        !(v is List && metainfo::texts_among(v->List_0).len() > 0) ==> metainfo::tiers_among(
            items.push(v),
        ) == metainfo::tiers_among(items),
        ({
            let length = grammar::lookup(v->Dict_0, encode_utf8("length"@));
            let path = grammar::lookup(v->Dict_0, encode_utf8("path"@));
            let complete = v is Dict && length is Some && length->0 is Int && path is Some
                && path->0 is List;
            &&& complete ==> metainfo::files_among(items.push(v)) == metainfo::files_among(
                items,
            ).push(
                FileModel {
                    length: metainfo::unsigned(length->0->Int_0),
                    path: metainfo::texts_among(path->0->List_0),
                },
            )
            &&& !complete ==> metainfo::files_among(items.push(v)) == metainfo::files_among(items)
        }),
{
    assert(items.push(v).drop_last() =~= items);
}

/// A number of 64 bits keeps its bits: it is the same up to a multiple of what 64
/// bits hold, and not negative.
pub proof fn law_unsigned(n: int)
    requires
        i64::MIN <= n <= i64::MAX,
    ensures
        0 <= metainfo::unsigned(n) <= u64::MAX,
        n >= 0 ==> metainfo::unsigned(n) == n,
        n < 0 ==> metainfo::unsigned(n) == n + 18446744073709551616,
{
}

/// The length of the content is that of the file, or else that of all files
/// together.
pub proof fn law_content_length(info: InfoModel)
    ensures
        info.length matches Some(n) ==> metainfo::content_length(info) == n,
        info.length is None && info.files is Some ==> metainfo::content_length(info)
            == info.files->0.fold_left(0, |sum: int, f: FileModel| sum + f.length),
        info.length is None && info.files is None ==> metainfo::content_length(info) == 0,
{
    if info.length is None && info.files is Some {
        lemma_sum(info.files->0);
    }
}

proof fn lemma_sum(files: Seq<FileModel>)
    ensures
        metainfo::sum_of_lengths(files) == files.fold_left(
            0,
            |sum: int, f: FileModel| sum + f.length,
        ),
    decreases files.len(),
{
    if files.len() > 0 {
        lemma_sum(files.drop_last());
    }
}

/// The trackers of all tiers stand in the order of the tiers, and within a tier in
/// its order; of those that occur twice the first counts.
pub proof fn law_trackers_in_order(m: MetainfoModel, i: int, j: int)
    requires
        0 <= i < j < m.announce_list.flatten().len(),
        !m.announce_list.flatten().take(i).contains(m.announce_list.flatten()[i]),
        !m.announce_list.flatten().take(j).contains(m.announce_list.flatten()[j]),
    ensures
        exists|p: int, q: int|
            0 <= p < q < metainfo::tracker_texts(m).len() && #[trigger] metainfo::tracker_texts(
                m,
            )[p] == m.announce_list.flatten()[i] && #[trigger] metainfo::tracker_texts(m)[q]
                == m.announce_list.flatten()[j],
{
    lemma_flattened(m.announce_list);
    let all = metainfo::flattened(m.announce_list);
    unique::law_unique_in_order(all, i, j);
    let (p, q) = choose|p: int, q: int|
        0 <= p < q < unique::unique(all).len() && #[trigger] unique::unique(all)[p] == all[i]
            && #[trigger] unique::unique(all)[q] == all[j];
    assert(metainfo::tracker_texts(m)[p] == all[i] && metainfo::tracker_texts(m)[q] == all[j]);
}

proof fn lemma_flattened<T>(lists: Seq<Seq<T>>)
    ensures
        metainfo::flattened(lists) == lists.flatten(),
{
    lists.lemma_flatten_and_flatten_alt_are_equivalent();
    lemma_flattened_alt(lists);
}

proof fn lemma_flattened_alt<T>(lists: Seq<Seq<T>>)
    ensures
        metainfo::flattened(lists) == lists.flatten_alt(),
    decreases lists.len(),
{
    if lists.len() > 0 {
        lemma_flattened_alt(lists.drop_last());
    }
}

} // verus!
