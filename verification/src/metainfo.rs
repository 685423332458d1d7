//! Metainfo: what a `.torrent` file says.
pub mod laws;

use vstd::prelude::*;

use vstd::string::*;
use vstd::utf8::*;

use crate::bencode;
use crate::bencode::grammar;
use crate::bencode::grammar::Bencode;
use crate::bencode::{decode, encode, BencodeDict, BencodeValue};
use crate::digest;
use crate::digest::sha1_digest;
use crate::error::Error;
use crate::unique;
use crate::unique::add_unique;

verus! {

/// What a `.torrent` file says.
#[derive(Debug, Clone)]
pub struct Metainfo {
    pub announce: String,
    pub announce_list: Vec<Vec<String>>,
    pub info: Info,
    pub info_hash: [u8; 20],
}

/// The content: how it is cut into pieces and the files that it is made of.
#[derive(Debug, Clone)]
pub struct Info {
    pub piece_length: u64,
    pub pieces: Vec<[u8; 20]>,
    pub name: String,
    pub length: Option<u64>,
    pub files: Option<Vec<FileEntry>>,
}

/// One file of several.
#[derive(Debug, Clone)]
pub struct FileEntry {
    pub length: u64,
    pub path: Vec<String>,
}

/// What a [`FileEntry`] says.
pub struct FileModel {
    pub length: int,
    pub path: Seq<Seq<char>>,
}

/// What an [`Info`] says.
pub struct InfoModel {
    pub piece_length: int,
    pub pieces: Seq<Seq<u8>>,
    pub name: Seq<char>,
    pub length: Option<int>,
    pub files: Option<Seq<FileModel>>,
}

/// What a [`Metainfo`] says.
pub struct MetainfoModel {
    pub announce: Seq<char>,
    pub announce_list: Seq<Seq<Seq<char>>>,
    pub info: InfoModel,
    pub info_hash: Seq<u8>,
}

impl View for FileEntry {
    type V = FileModel;

    open spec fn view(&self) -> FileModel {
        FileModel { length: self.length as int, path: unique::texts(self.path@) }
    }
}

/// What the entries say.
pub open spec fn file_models(files: Seq<FileEntry>) -> Seq<FileModel> {
    Seq::new(files.len(), |i: int| files[i]@)
}

/// The bytes of the digests.
pub open spec fn digest_models(pieces: Seq<[u8; 20]>) -> Seq<Seq<u8>> {
    Seq::new(pieces.len(), |i: int| pieces[i]@)
}

/// The texts of the tiers.
pub open spec fn tier_models(tiers: Seq<Vec<String>>) -> Seq<Seq<Seq<char>>> {
    Seq::new(tiers.len(), |i: int| unique::texts(tiers[i]@))
}

impl View for Info {
    type V = InfoModel;

    open spec fn view(&self) -> InfoModel {
        InfoModel {
            piece_length: self.piece_length as int,
            pieces: digest_models(self.pieces@),
            name: self.name@,
            length: match self.length {
                Some(n) => Some(n as int),
                None => None,
            },
            files: match self.files {
                Some(files) => Some(file_models(files@)),
                None => None,
            },
        }
    }
}

impl View for Metainfo {
    type V = MetainfoModel;

    open spec fn view(&self) -> MetainfoModel {
        MetainfoModel {
            announce: self.announce@,
            announce_list: tier_models(self.announce_list@),
            info: self.info@,
            info_hash: self.info_hash@,
        }
    }
}

/// What the UTF-8 encoding of `name` stands for.
pub open spec fn field(entries: Seq<(Seq<u8>, Bencode)>, name: Seq<char>) -> Option<Bencode> {
    grammar::lookup(entries, encode_utf8(name))
}

/// The text under `name`.
pub open spec fn text_field(entries: Seq<(Seq<u8>, Bencode)>, name: Seq<char>) -> Option<
    Seq<char>,
> {
    match field(entries, name) {
        Some(v) => grammar::text_of(v),
        None => None,
    }
}

/// The number under `name`.
pub open spec fn int_field(entries: Seq<(Seq<u8>, Bencode)>, name: Seq<char>) -> Option<int> {
    match field(entries, name) {
        Some(v) => grammar::int_of(v),
        None => None,
    }
}

/// The bytes under `name`.
pub open spec fn bytes_field(entries: Seq<(Seq<u8>, Bencode)>, name: Seq<char>) -> Option<
    Seq<u8>,
> {
    match field(entries, name) {
        Some(v) => grammar::bytes_of(v),
        None => None,
    }
}

/// The list under `name`.
pub open spec fn list_field(entries: Seq<(Seq<u8>, Bencode)>, name: Seq<char>) -> Option<
    Seq<Bencode>,
> {
    match field(entries, name) {
        Some(v) => grammar::list_of(v),
        None => None,
    }
}

/// A signed number of 64 bits, read as an unsigned one.
pub open spec fn unsigned(n: int) -> int {
    if n < 0 {
        n + 0x1_0000_0000_0000_0000
    } else {
        n
    }
}

/// The texts among the values.
pub open spec fn texts_among(items: Seq<Bencode>) -> Seq<Seq<char>>
    decreases items.len(),
{
    if items.len() == 0 {
        Seq::empty()
    } else {
        let front = texts_among(items.drop_last());
        match grammar::text_of(items.last()) {
            Some(t) => front.push(t),
            None => front,
        }
    }
}

/// The tiers among the values: lists with a text in them.
pub open spec fn tiers_among(items: Seq<Bencode>) -> Seq<Seq<Seq<char>>>
    decreases items.len(),
{
    if items.len() == 0 {
        Seq::empty()
    } else {
        let front = tiers_among(items.drop_last());
        match grammar::list_of(items.last()) {
            Some(tier) => if texts_among(tier).len() > 0 {
                front.push(texts_among(tier))
            } else {
                front
            },
            None => front,
        }
    }
}

/// The file that a value describes: a dictionary with a length and a path.
pub open spec fn file_of(v: Bencode) -> Option<FileModel> {
    match grammar::dict_of(v) {
        Some(d) => match (int_field(d, "length"@), list_field(d, "path"@)) {
            (Some(n), Some(path)) => Some(
                FileModel { length: unsigned(n), path: texts_among(path) },
            ),
            _ => None,
        },
        None => None,
    }
}

/// The files among the values.
pub open spec fn files_among(items: Seq<Bencode>) -> Seq<FileModel>
    decreases items.len(),
{
    if items.len() == 0 {
        Seq::empty()
    } else {
        let front = files_among(items.drop_last());
        match file_of(items.last()) {
            Some(f) => front.push(f),
            None => front,
        }
    }
}

/// The digests that stand one after the other, of 20 bytes each.
pub open spec fn digests_in(bytes: Seq<u8>) -> Seq<Seq<u8>> {
    Seq::new(bytes.len() / 20, |i: int| bytes.subrange(20 * i, 20 * i + 20))
}

/// What an `info` dictionary says, or what is wrong with it.
pub open spec fn info_said(d: Seq<(Seq<u8>, Bencode)>) -> Result<InfoModel, Seq<char>> {
    match (int_field(d, "piece length"@), bytes_field(d, "pieces"@), text_field(d, "name"@)) {
        (None, _, _) => Err("missing 'piece length'"@),
        (_, None, _) => Err("missing 'pieces'"@),
        (Some(piece_length), Some(pieces), name) => if pieces.len() % 20 != 0 {
            Err("pieces length not multiple of 20"@)
        } else {
            match name {
                None => Err("missing 'name'"@),
                Some(name) => Ok(
                    InfoModel {
                        piece_length: unsigned(piece_length),
                        pieces: digests_in(pieces),
                        name,
                        length: match int_field(d, "length"@) {
                            Some(n) => Some(unsigned(n)),
                            None => None,
                        },
                        files: match list_field(d, "files"@) {
                            Some(items) => Some(files_among(items)),
                            None => None,
                        },
                    },
                ),
            }
        },
    }
}

/// What a metainfo value says, or what is wrong with it; `info_hash` is taken
/// for the torrent's identity.
pub open spec fn metainfo_said(top: Bencode, info_hash: Seq<u8>) -> Result<
    MetainfoModel,
    Seq<char>,
> {
    match grammar::dict_of(top) {
        None => Err("top level not a dict"@),
        Some(d) => match text_field(d, "announce"@) {
            None => Err("missing 'announce'"@),
            Some(announce) => match field(d, "info"@) {
                None => Err("missing 'info'"@),
                Some(info) => match grammar::dict_of(info) {
                    None => Err("'info' is not a dict"@),
                    Some(entries) => match info_said(entries) {
                        Err(e) => Err(e),
                        Ok(info) => Ok(
                            MetainfoModel {
                                announce,
                                announce_list: match list_field(d, "announce-list"@) {
                                    Some(tiers) => tiers_among(tiers),
                                    None => seq![seq![announce]],
                                },
                                info,
                                info_hash,
                            },
                        ),
                    },
                },
            },
        },
    }
}

/// The identity of a torrent: the digest of how its `info` is written.
pub open spec fn identity(top: Bencode) -> Seq<u8> {
    digest::sha1(grammar::encoding(grammar::entry_of(top, encode_utf8("info"@))->0))
}

/// What the bytes of a `.torrent` file say, or what is wrong with them.
pub open spec fn file_said(data: Seq<u8>) -> Result<MetainfoModel, Seq<char>> {
    match grammar::decoded(data) {
        Err(e) => Err("bencode error: "@ + e),
        Ok((top, _)) => metainfo_said(top, identity(top)),
    }
}

/// A result says what is expected.
pub open spec fn says(
    result: Result<Metainfo, Error>,
    expected: Result<MetainfoModel, Seq<char>>,
) -> bool {
    match result {
        Ok(m) => expected == Ok::<_, Seq<char>>(m@),
        Err(Error::Metainfo(message)) => expected == Err::<MetainfoModel, _>(message@),
        Err(_) => false,
    }
}

fn failure(message: &str) -> (e: Error)
    ensures
        e matches Error::Metainfo(s) && s@ == message@,
{
    Error::Metainfo(message.to_string())
}

/// A signed number, read as an unsigned one.
fn as_unsigned(n: i64) -> (out: u64)
    ensures
        out == unsigned(n as int),
{
    if n < 0 {
        assert(n as u64 == n + 0x1_0000_0000_0000_0000) by (bit_vector)
            requires
                n < 0,
        ;
    }
    n as u64
}

/// The texts among the values.
fn collect_texts(items: &[BencodeValue]) -> (out: Vec<String>)
    ensures
        unique::texts(out@) == texts_among(bencode::list_model(items@)),
{
    let ghost all = bencode::list_model(items@);
    let mut out: Vec<String> = Vec::new();
    let mut i: usize = 0;
    assert(unique::texts(out@) =~= texts_among(all.take(0)));
    while i < items.len()
        invariant
            i <= items@.len(),
            all == bencode::list_model(items@),
            unique::texts(out@) == texts_among(all.take(i as int)),
        decreases items@.len() - i,
    {
        assert(all.take(i + 1).drop_last() =~= all.take(i as int));
        assert(all.take(i + 1).last() == items@[i as int]@);
        let ghost before = unique::texts(out@);
        if let Some(t) = items[i].as_str() {
            out.push(t.to_string());
            assert(unique::texts(out@) =~= before.push(t@));
        }
        i = i + 1;
    }
    assert(all.take(i as int) =~= all);
    out
}

/// The tiers among the values.
fn collect_tiers(items: &[BencodeValue]) -> (out: Vec<Vec<String>>)
    ensures
        tier_models(out@) == tiers_among(bencode::list_model(items@)),
{
    let ghost all = bencode::list_model(items@);
    let mut out: Vec<Vec<String>> = Vec::new();
    let mut i: usize = 0;
    assert(tier_models(out@) =~= tiers_among(all.take(0)));
    while i < items.len()
        invariant
            i <= items@.len(),
            all == bencode::list_model(items@),
            tier_models(out@) == tiers_among(all.take(i as int)),
        decreases items@.len() - i,
    {
        assert(all.take(i + 1).drop_last() =~= all.take(i as int));
        assert(all.take(i + 1).last() == items@[i as int]@);
        let ghost before = tier_models(out@);
        if let Some(list) = items[i].as_list() {
            let tier = collect_texts(list);
            let ghost tier_texts = unique::texts(tier@);
            if tier.len() > 0 {
                out.push(tier);
                assert(tier_models(out@) =~= before.push(tier_texts));
            }
        }
        i = i + 1;
    }
    assert(all.take(i as int) =~= all);
    out
}

/// The file that a value describes.
fn read_file(value: &BencodeValue) -> (out: Option<FileEntry>)
    ensures
        match out {
            Some(f) => file_of(value@) == Some(f@),
            None => file_of(value@) is None,
        },
{
    let d = value.as_dict()?;
    let n = d.get("length".as_bytes())?.as_int()?;
    let path = d.get("path".as_bytes())?.as_list()?;
    Some(FileEntry { length: as_unsigned(n), path: collect_texts(path) })
}

/// The files among the values.
fn collect_files(items: &[BencodeValue]) -> (out: Vec<FileEntry>)
    ensures
        file_models(out@) == files_among(bencode::list_model(items@)),
{
    let ghost all = bencode::list_model(items@);
    let mut out: Vec<FileEntry> = Vec::new();
    let mut i: usize = 0;
    assert(file_models(out@) =~= files_among(all.take(0)));
    while i < items.len()
        invariant
            i <= items@.len(),
            all == bencode::list_model(items@),
            file_models(out@) == files_among(all.take(i as int)),
        decreases items@.len() - i,
    {
        assert(all.take(i + 1).drop_last() =~= all.take(i as int));
        assert(all.take(i + 1).last() == items@[i as int]@);
        let ghost before = file_models(out@);
        if let Some(f) = read_file(&items[i]) {
            let ghost file = f@;
            out.push(f);
            assert(file_models(out@) =~= before.push(file));
        }
        i = i + 1;
    }
    assert(all.take(i as int) =~= all);
    out
}

/// 20 bytes as an array.
fn digest_at(bytes: &[u8], start: usize) -> (out: [u8; 20])
    requires
        start + 20 <= bytes@.len(),
    ensures
        out@ == bytes@.subrange(start as int, start + 20),
{
    let mut out: [u8; 20] = [0u8;20];
    let mut i: usize = 0;
    while i < 20
        invariant
            i <= 20,
            start + 20 <= bytes.len(),
            forall|j: int| 0 <= j < i ==> out@[j] == bytes@[start + j],
        decreases 20 - i,
    {
        out[i] = bytes[start + i];
        i = i + 1;
    }
    assert(out@ =~= bytes@.subrange(start as int, start + 20));
    out
}

/// The digests that stand one after the other.
fn split_digests(bytes: &[u8]) -> (out: Vec<[u8; 20]>)
    requires
        bytes@.len() % 20 == 0,
    ensures
        digest_models(out@) == digests_in(bytes@),
        20 * out@.len() == bytes@.len(),
        forall|i: int, k: int|
            0 <= i < out@.len() && 0 <= k < 20 ==> #[trigger] out@[i]@[k] == bytes@[20 * i + k],
{
    let count = bytes.len() / 20;
    let mut out: Vec<[u8; 20]> = Vec::new();
    let mut i: usize = 0;
    while i < count
        invariant
            i <= count,
            count == bytes.len() / 20,
            out@.len() == i,
            forall|j: int|
                0 <= j < i ==> (#[trigger] out@[j])@ == bytes@.subrange(20 * j, 20 * j + 20),
        decreases count - i,
    {
        out.push(digest_at(bytes, 20 * i));
        i = i + 1;
    }
    assert(digest_models(out@) =~= digests_in(bytes@));
    out
}

/// Reads an `info` dictionary.
pub fn parse_info(dict: &BencodeDict) -> (result: Result<Info, Error>)
    ensures
        match result {
            Ok(info) => info_said(dict@) == Ok::<_, Seq<char>>(info@),
            Err(Error::Metainfo(message)) => info_said(dict@) == Err::<InfoModel, _>(message@),
            Err(_) => false,
        },
{
    let piece_length = match dict.get("piece length".as_bytes()) {
        Some(v) => v.as_int(),
        None => None,
    };
    let piece_length = match piece_length {
        Some(n) => as_unsigned(n),
        None => {
            return Err(failure("missing 'piece length'"));
        },
    };
    let pieces_bytes = match dict.get("pieces".as_bytes()) {
        Some(v) => v.as_bytes(),
        None => None,
    };
    let pieces_bytes = match pieces_bytes {
        Some(b) => b,
        None => {
            return Err(failure("missing 'pieces'"));
        },
    };
    if pieces_bytes.len() % 20 != 0 {
        return Err(failure("pieces length not multiple of 20"));
    }
    let pieces = split_digests(pieces_bytes);
    let name = match dict.get("name".as_bytes()) {
        Some(v) => v.as_str(),
        None => None,
    };
    let name = match name {
        Some(s) => s.to_string(),
        None => {
            return Err(failure("missing 'name'"));
        },
    };
    let length = match dict.get("length".as_bytes()) {
        Some(v) => match v.as_int() {
            Some(n) => Some(as_unsigned(n)),
            None => None,
        },
        None => None,
    };
    let files = match dict.get("files".as_bytes()) {
        Some(v) => match v.as_list() {
            Some(items) => Some(collect_files(items)),
            None => None,
        },
        None => None,
    };
    Ok(Info { piece_length, pieces, name, length, files })
}

/// The sum of the lengths.
pub open spec fn sum_of_lengths(files: Seq<FileModel>) -> int
    decreases files.len(),
{
    if files.len() == 0 {
        0
    } else {
        sum_of_lengths(files.drop_last()) + files.last().length
    }
}

/// The length of the whole content.
pub open spec fn content_length(info: InfoModel) -> int {
    match info.length {
        Some(n) => n,
        None => match info.files {
            Some(files) => sum_of_lengths(files),
            None => 0,
        },
    }
}

/// The items of the lists, one list after the other.
pub open spec fn flattened<T>(lists: Seq<Seq<T>>) -> Seq<T>
    decreases lists.len(),
{
    if lists.len() == 0 {
        Seq::empty()
    } else {
        flattened(lists.drop_last()) + lists.last()
    }
}

/// The trackers of all tiers, in order and each once.
pub open spec fn tracker_texts(m: MetainfoModel) -> Seq<Seq<char>> {
    unique::unique(flattened(m.announce_list))
}

/// Every tracker of every tier is listed, and listed once.
pub proof fn law_trackers_each_once(m: MetainfoModel)
    ensures
        tracker_texts(m).no_duplicates(),
        forall|url: Seq<char>| #[trigger]
            tracker_texts(m).contains(url) <==> exists|i: int|
                0 <= i < m.announce_list.len() && (#[trigger] m.announce_list[i]).contains(url),
{
    unique::law_unique(flattened(m.announce_list));
    assert forall|url: Seq<char>| #[trigger] tracker_texts(m).contains(url) <==> exists|i: int|
        0 <= i < m.announce_list.len() && (#[trigger] m.announce_list[i]).contains(url) by {
        lemma_flattened_contains(m.announce_list, url);
    }
}

proof fn lemma_flattened_contains<T>(lists: Seq<Seq<T>>, x: T)
    ensures
        flattened(lists).contains(x) <==> exists|i: int|
            0 <= i < lists.len() && (#[trigger] lists[i]).contains(x),
    decreases lists.len(),
{
    if lists.len() > 0 {
        let rest = lists.drop_last();
        let front = flattened(rest);
        let last = lists.last();
        lemma_flattened_contains(rest, x);
        if flattened(lists).contains(x) {
            let k = choose|k: int| 0 <= k < (front + last).len() && (front + last)[k] == x;
            if k < front.len() {
                assert(front[k] == x);
                let i = choose|i: int| 0 <= i < rest.len() && (#[trigger] rest[i]).contains(x);
                assert(lists[i] == rest[i]);
            } else {
                assert(last[k - front.len()] == x);
                assert(lists[lists.len() - 1].contains(x));
            }
        }
        if exists|i: int| 0 <= i < lists.len() && (#[trigger] lists[i]).contains(x) {
            let i = choose|i: int| 0 <= i < lists.len() && (#[trigger] lists[i]).contains(x);
            if i < rest.len() {
                assert(rest[i].contains(x));
                let k = choose|k: int| 0 <= k < front.len() && front[k] == x;
                assert((front + last)[k] == x);
            } else {
                let k = choose|k: int| 0 <= k < last.len() && last[k] == x;
                assert((front + last)[front.len() + k] == x);
            }
        }
    }
}

pub proof fn lemma_sum_grows(files: Seq<FileModel>, n: int)
    requires
        0 <= n <= files.len(),
        forall|i: int| 0 <= i < files.len() ==> (#[trigger] files[i]).length >= 0,
    ensures
        0 <= sum_of_lengths(files.take(n)) <= sum_of_lengths(files),
    decreases files.len() - n,
{
    if n < files.len() {
        lemma_sum_grows(files, n + 1);
        assert(files.take(n + 1).drop_last() =~= files.take(n));
        assert(files.take(n + 1).last() == files[n]);
        lemma_sum_nonnegative(files.take(n));
    } else {
        assert(files.take(n) =~= files);
        lemma_sum_nonnegative(files);
    }
}

proof fn lemma_sum_nonnegative(files: Seq<FileModel>)
    requires
        forall|i: int| 0 <= i < files.len() ==> (#[trigger] files[i]).length >= 0,
    ensures
        sum_of_lengths(files) >= 0,
    decreases files.len(),
{
    if files.len() > 0 {
        assert forall|i: int| 0 <= i < files.drop_last().len() implies (
        #[trigger] files.drop_last()[i]).length >= 0 by {
            assert(files.drop_last()[i] == files[i]);
        }
        lemma_sum_nonnegative(files.drop_last());
        assert(files[files.len() - 1].length >= 0);
    }
}

/// Where the value of the entry at `k` starts in a written dictionary.
pub open spec fn value_start(entries: Seq<(Seq<u8>, Bencode)>, k: nat) -> int {
    1 + grammar::encoded_entries(entries, 0).len() - grammar::encoded_entries(entries, k).len()
        + grammar::encoded_bytes(entries[k as int].0).len()
}

/// What is written of the entries from `k` on ends what is written of them all.
proof fn lemma_entries_suffix(entries: Seq<(Seq<u8>, Bencode)>, k: nat)
    requires
        k <= entries.len(),
    ensures
        ({
            let all = grammar::encoded_entries(entries, 0);
            let tail = grammar::encoded_entries(entries, k);
            tail.len() <= all.len() && all.skip(all.len() - tail.len()) == tail
        }),
    decreases k,
{
    let all = grammar::encoded_entries(entries, 0);
    let tail = grammar::encoded_entries(entries, k);
    if k == 0 {
        assert(all.skip(0) =~= all);
    } else {
        lemma_entries_suffix(entries, (k - 1) as nat);
        let longer = grammar::encoded_entries(entries, (k - 1) as nat);
        assert(all.skip(all.len() - tail.len()) =~= longer.skip(longer.len() - tail.len()));
        assert(longer.skip(longer.len() - tail.len()) =~= tail);
    }
}

/// In a written dictionary each value stands behind its key.
pub proof fn lemma_entry_written(entries: Seq<(Seq<u8>, Bencode)>, k: nat)
    requires
        k < entries.len(),
    ensures
        ({
            let s = grammar::encoding(Bencode::Dict(entries));
            let key = grammar::encoded_bytes(entries[k as int].0);
            let value = grammar::encoding(entries[k as int].1);
            let start = value_start(entries, k);
            &&& key.len() <= start
            &&& start + value.len() <= s.len()
            &&& s.subrange(start - key.len(), start) == key
            &&& s.subrange(start, start + value.len()) == value
        }),
{
    let s = grammar::encoding(Bencode::Dict(entries));
    let key = grammar::encoded_bytes(entries[k as int].0);
    let value = grammar::encoding(entries[k as int].1);
    let start = value_start(entries, k);
    let all = grammar::encoded_entries(entries, 0);
    let tail = grammar::encoded_entries(entries, k);
    let later = grammar::encoded_entries(entries, k + 1);
    lemma_entries_suffix(entries, k);
    assert(tail == key + value + later);
    let at = all.len() - tail.len();
    assert forall|i: int| 0 <= i < tail.len() implies s[1 + at + i] == #[trigger] tail[i] by {
        assert(all.skip(at)[i] == all[at + i]);
    }
    assert(s.subrange(start - key.len(), start) =~= key) by {
        assert forall|i: int| 0 <= i < key.len() implies s[1 + at + i] == #[trigger] key[i] by {
            assert(tail[i] == key[i]);
        }
    }
    assert(s.subrange(start, start + value.len()) =~= value) by {
        assert forall|i: int| 0 <= i < value.len() implies s[start + i] == #[trigger] value[i] by {
            assert(tail[key.len() + i] == value[i]);
        }
    }
}

/// An entry that a key stands for.
proof fn lemma_lookup_index(entries: Seq<(Seq<u8>, Bencode)>, key: Seq<u8>) -> (k: int)
    requires
        grammar::lookup(entries, key) is Some,
    ensures
        0 <= k < entries.len(),
        entries[k].0 == key,
        grammar::lookup(entries, key) == Some(entries[k].1),
    decreases entries.len(),
{
    if entries[0].0 == key {
        0
    } else {
        let k = lemma_lookup_index(entries.drop_first(), key);
        assert(entries.drop_first()[k] == entries[k + 1]);
        k + 1
    }
}

/// The identity of a torrent is the digest of the very bytes that stand behind
/// the key `info` in its file.
pub proof fn law_identity_of_raw_bytes(data: Seq<u8>)
    requires
        file_said(data) is Ok,
    ensures
        exists|start: int, end: int|
            #![trigger data.subrange(start, end)]
            {
                let key = grammar::encoded_bytes(encode_utf8("info"@));
                &&& key.len() <= start <= end <= data.len()
                &&& data.subrange(start - key.len(), start) == key
                &&& grammar::decoded(data.subrange(start, end)) == Ok::<_, Seq<char>>(
                    (
                        grammar::entry_of(
                            (grammar::decoded(data)->Ok_0).0,
                            encode_utf8("info"@),
                        )->0,
                        end - start,
                    ),
                )
                &&& file_said(data)->Ok_0.info_hash == digest::sha1(data.subrange(start, end))
            },
{
    let (top, n) = grammar::decoded(data)->Ok_0;
    let name = encode_utf8("info"@);
    let key = grammar::encoded_bytes(name);
    crate::bencode::laws::law_decoded_written_so(data);
    let entries = top->Dict_0;
    let k = lemma_lookup_index(entries, name);
    let info = entries[k].1;
    lemma_entry_written(entries, k as nat);
    let start = value_start(entries, k as nat);
    let end = start + grammar::encoding(info).len();
    let s = grammar::encoding(top);
    assert(data.subrange(start, end) =~= s.subrange(start, end));
    assert(data.subrange(start - key.len(), start) =~= s.subrange(start - key.len(), start));
    crate::bencode::laws::law_encoding_read_back(info, Seq::empty());
    assert(grammar::encoding(info) + Seq::<u8>::empty() =~= grammar::encoding(info));
}

/// Torrents with the same `info` have the same identity, whatever else their
/// files say.
pub proof fn law_identity_from_info_alone(a: Seq<u8>, b: Seq<u8>)
    requires
        file_said(a) is Ok,
        file_said(b) is Ok,
        grammar::entry_of((grammar::decoded(a)->Ok_0).0, encode_utf8("info"@))
            == grammar::entry_of((grammar::decoded(b)->Ok_0).0, encode_utf8("info"@)),
    ensures
        file_said(a)->Ok_0.info_hash == file_said(b)->Ok_0.info_hash,
        file_said(a)->Ok_0.info == file_said(b)->Ok_0.info,
{
}

/// What a file says follows from the value that it starts with: bytes behind
/// the value change nothing.
pub proof fn law_trailing_bytes_ignored(data: Seq<u8>, rest: Seq<u8>)
    requires
        grammar::decoded(data) is Ok,
    ensures
        file_said(data + rest) == file_said(data),
{
    crate::bencode::laws::law_decoded_written_so(data);
    let (top, n) = grammar::decoded(data)->Ok_0;
    crate::bencode::laws::law_encoding_read_back(top, data.skip(n) + rest);
    assert(grammar::encoding(top) + (data.skip(n) + rest) =~= data + rest);
}

impl Metainfo {
    /// Reads a `.torrent` file. The torrent's identity is the digest of its
    /// `info` dictionary as it is written.
    pub fn from_bytes(data: &[u8]) -> (result: Result<Self, Error>)
        ensures
            says(result, file_said(data@)),
    {
        let top = match decode(data) {
            Ok((top, _)) => top,
            Err(e) => {
                return Err(Error::Metainfo(e.to_string()));
            },
        };
        let info_hash: [u8; 20] = match top.dict_get_str("info") {
            Some(info) => sha1_digest(encode(info).as_slice()),
            None => [0u8;20],
        };
        Metainfo::from_value(&top, info_hash)
    }

    /// Reads a metainfo value; `info_hash` is taken for the torrent's identity.
    pub fn from_value(top: &BencodeValue, info_hash: [u8; 20]) -> (result: Result<Self, Error>)
        ensures
            says(result, metainfo_said(top@, info_hash@)),
    {
        let dict = match top.as_dict() {
            Some(d) => d,
            None => {
                return Err(failure("top level not a dict"));
            },
        };
        let announce = match dict.get("announce".as_bytes()) {
            Some(v) => v.as_str(),
            None => None,
        };
        let announce = match announce {
            Some(s) => s.to_string(),
            None => {
                return Err(failure("missing 'announce'"));
            },
        };
        let tiers = match dict.get("announce-list".as_bytes()) {
            Some(v) => v.as_list(),
            None => None,
        };
        let announce_list: Vec<Vec<String>> = match tiers {
            Some(items) => collect_tiers(items),
            None => {
                let mut only: Vec<String> = Vec::new();
                only.push(announce.clone());
                assert(unique::texts(only@) =~= seq![announce@]);
                let mut all: Vec<Vec<String>> = Vec::new();
                all.push(only);
                assert(tier_models(all@) =~= seq![seq![announce@]]);
                all
            },
        };
        let info_val = match dict.get("info".as_bytes()) {
            Some(v) => v,
            None => {
                return Err(failure("missing 'info'"));
            },
        };
        let info_dict = match info_val.as_dict() {
            Some(d) => d,
            None => {
                return Err(failure("'info' is not a dict"));
            },
        };
        match parse_info(info_dict) {
            Ok(info) => Ok(Metainfo { announce, announce_list, info, info_hash }),
            Err(e) => Err(e),
        }
    }

    /// The length of the whole content.
    pub fn total_length(&self) -> (n: u64)
        requires
            content_length(self@.info) <= u64::MAX,
        ensures
            n == content_length(self@.info),
    {
        if let Some(len) = self.info.length {
            return len;
        }
        match &self.info.files {
            None => 0,
            Some(files) => {
                let ghost all = file_models(files@);
                let mut sum: u64 = 0;
                let mut i: usize = 0;
                assert(all.take(0) =~= Seq::empty());
                while i < files.len()
                    invariant
                        i <= files@.len(),
                        all == file_models(files@),
                        sum_of_lengths(all) <= u64::MAX,
                        sum == sum_of_lengths(all.take(i as int)),
                    decreases files@.len() - i,
                {
                    proof {
                        lemma_sum_grows(all, i + 1);
                        assert(all.take(i + 1).drop_last() =~= all.take(i as int));
                        assert(all.take(i + 1).last() == files@[i as int]@);
                    }
                    sum = sum + files[i].length;
                    i = i + 1;
                }
                assert(all.take(i as int) =~= all);
                sum
            },
        }
    }

    /// The trackers of all tiers, in order and each once.
    pub fn trackers(&self) -> (out: Vec<String>)
        ensures
            unique::texts(out@) == tracker_texts(self@),
    {
        let ghost tiers = self@.announce_list;
        let mut out: Vec<String> = Vec::new();
        let mut i: usize = 0;
        assert(unique::texts(out@) =~= unique::unique(flattened(tiers.take(0))));
        while i < self.announce_list.len()
            invariant
                i <= self.announce_list@.len(),
                tiers == tier_models(self.announce_list@),
                unique::texts(out@) == unique::unique(flattened(tiers.take(i as int))),
            decreases self.announce_list@.len() - i,
        {
            let tier = &self.announce_list[i];
            let ghost before = flattened(tiers.take(i as int));
            let ghost urls = unique::texts(tier@);
            let mut j: usize = 0;
            assert(before + urls.take(0) =~= before);
            while j < tier.len()
                invariant
                    j <= tier@.len(),
                    urls == unique::texts(tier@),
                    unique::texts(out@) == unique::unique(before + urls.take(j as int)),
                decreases tier@.len() - j,
            {
                proof {
                    unique::lemma_unique_push(before + urls.take(j as int), tier@[j as int]@);
                    assert(before + urls.take(j + 1) =~= (before + urls.take(j as int)).push(
                        tier@[j as int]@,
                    ));
                }
                add_unique(&mut out, tier[j].clone());
                j = j + 1;
            }
            assert(urls.take(j as int) =~= urls);
            assert(tiers.take(i + 1).drop_last() =~= tiers.take(i as int));
            assert(tiers.take(i + 1).last() == urls);
            i = i + 1;
        }
        assert(tiers.take(i as int) =~= tiers);
        out
    }
}

} // verus!
