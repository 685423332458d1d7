//! The mapping of pieces to files.
pub mod laws;
pub mod model;

use vstd::prelude::*;
use vstd::string::*;

use crate::error::Error;
use crate::metainfo;
use crate::metainfo::Metainfo;
use crate::scan;
use crate::scan::{chars_of, split_text};
use crate::storage::model::{FileSpan, PartModel, PathStyle};
use crate::unique;

verus! {

/// A file and the part of the content that it holds.
#[derive(Clone)]
pub struct FileLayout {
    /// The components of the path below the download directory.
    pub path: Vec<String>,
    pub length: u64,
    pub offset: u64,
}

/// The files of a torrent.
#[derive(Clone)]
pub struct DiskManager {
    pub name: String,
    pub piece_length: u64,
    pub files: Vec<FileLayout>,
}

/// A part of a piece that lies in one file.
#[derive(Debug, Clone, Copy, PartialEq, Eq, Structural)]
pub struct FilePart {
    /// The number of the file.
    pub file: usize,
    /// Where the part begins in the file.
    pub position: u64,
    /// Where the part begins in the piece.
    pub start: usize,
    /// Where the part ends in the piece.
    pub end: usize,
}

impl View for FileLayout {
    type V = FileSpan;

    open spec fn view(&self) -> FileSpan {
        FileSpan {
            path: unique::texts(self.path@),
            length: self.length as int,
            offset: self.offset as int,
        }
    }
}

impl View for FilePart {
    type V = PartModel;

    open spec fn view(&self) -> PartModel {
        PartModel {
            file: self.file as int,
            position: self.position as int,
            start: self.start as int,
            end: self.end as int,
        }
    }
}

/// The files that the layouts describe.
pub open spec fn file_spans(files: Seq<FileLayout>) -> Seq<FileSpan> {
    Seq::new(files.len(), |i: int| files[i]@)
}

/// What the parts say.
pub open spec fn part_models(parts: Seq<FilePart>) -> Seq<PartModel> {
    Seq::new(parts.len(), |i: int| parts[i]@)
}

/// The bytes of the chunks.
pub open spec fn chunk_models(chunks: Seq<Vec<u8>>) -> Seq<Seq<u8>> {
    Seq::new(chunks.len(), |i: int| chunks[i]@)
}

/// Appends the texts.
fn append_texts(out: &mut Vec<String>, more: &Vec<String>)
    ensures
        unique::texts(final(out)@) == unique::texts(old(out)@) + unique::texts(more@),
{
    let ghost before = unique::texts(out@);
    let mut i: usize = 0;
    while i < more.len()
        invariant
            i <= more@.len(),
            unique::texts(out@) == before + unique::texts(more@).take(i as int),
        decreases more@.len() - i,
    {
        let ghost held = unique::texts(out@);
        out.push(more[i].clone());
        assert(unique::texts(out@) =~= held.push(more@[i as int]@));
        i = i + 1;
        assert(unique::texts(out@) =~= before + unique::texts(more@).take(i as int));
    }
    assert(unique::texts(more@).take(i as int) =~= unique::texts(more@));
}

/// Whether a character separates the components of a path.
fn separates(style: PathStyle, c: char) -> (out: bool)
    ensures
        out == model::is_separator(style, c),
{
    c == '/' || (style == PathStyle::Windows && c == '\\')
}

/// Whether a character is an ASCII letter.
fn is_letter(c: char) -> (out: bool)
    ensures
        out == ('a' <= c <= 'z' || 'A' <= c <= 'Z'),
{
    let n = c as u32;
    (n >= 65 && n <= 90) || (n >= 97 && n <= 122)
}

/// Whether a component of a path can lead out of its directory.
fn can_lead_out(style: PathStyle, component: &String) -> (out: bool)
    ensures
        out == model::leads_out(style, component@),
{
    let all = chars_of(component.as_str());
    let n = all.len();
    if n > 0 && separates(style, all[0]) {
        return true;
    }
    if style == PathStyle::Windows && n > 1 && all[1] == ':' && is_letter(all[0]) {
        return true;
    }
    let mut p: usize = 0;
    while p < n
        invariant
            all@ == component@,
            n == all@.len(),
            p <= n,
            forall|q: int| q < p ==> !#[trigger] model::climbs_at(style, component@, q),
        decreases n - p,
    {
        if p + 1 < n && all[p] == '.' && all[p + 1] == '.' && (p == 0 || separates(
            style,
            all[p - 1],
        )) && (p + 2 == n || separates(style, all[p + 2])) {
            assert(model::climbs_at(style, component@, p as int));
            return true;
        }
        assert(!model::climbs_at(style, component@, p as int));
        p = p + 1;
    }
    assert forall|q: int| !#[trigger] model::climbs_at(style, component@, q) by {}
    false
}

/// A text with slashes in place of all that separates.
fn with_slashes(style: PathStyle, component: &String) -> (out: String)
    ensures
        out@ == model::slashed(style, component@),
{
    let ghost whole = model::slashed(style, component@);
    let text = component.as_str();
    let all = chars_of(text);
    let mut out = String::new();
    let mut i: usize = 0;
    assert(out@ =~= whole.take(0));
    while i < all.len()
        invariant
            text@ == component@,
            all@ == component@,
            i <= all@.len(),
            whole == model::slashed(style, component@),
            out@ == whole.take(i as int),
        decreases all@.len() - i,
    {
        let ghost before = out@;
        if separates(style, all[i]) {
            proof {
                reveal_strlit("/");
            }
            out.append("/");
            assert(out@ =~= before.push('/'));
        } else {
            out.append(text.substring_char(i, i + 1));
            assert(out@ =~= before.push(component@[i as int]));
        }
        i = i + 1;
        assert(whole[i - 1] == if model::is_separator(style, component@[i - 1]) {
            '/'
        } else {
            component@[i - 1]
        });
        assert(out@ =~= whole.take(i as int));
    }
    assert(whole.take(i as int) =~= whole);
    out
}

/// Whether a component names something.
fn has_names(style: PathStyle, component: &String) -> (out: bool)
    ensures
        out == (model::names(style, component@).len() > 0),
{
    let text = with_slashes(style, component);
    let parts = split_text(text.as_str(), '/');
    let ghost all = scan::split(text@, '/');
    let mut named: bool = false;
    let mut i: usize = 0;
    assert(all.take(0) =~= Seq::empty());
    while i < parts.len()
        invariant
            i <= parts@.len(),
            all == scan::slices(parts@),
            named == (model::naming(all.take(i as int)).len() > 0),
        decreases parts@.len() - i,
    {
        assert(all.take(i + 1).drop_last() =~= all.take(i as int));
        assert(all.take(i + 1).last() == parts@[i as int]@);
        if parts[i].unicode_len() > 0 && parts[i].to_string() != ".".to_string() {
            named = true;
        }
        i = i + 1;
    }
    assert(all.take(i as int) =~= all);
    named
}

/// Whether a path names something below the folder that it starts from.
fn path_stays_inside(style: PathStyle, path: &Vec<String>) -> (out: bool)
    ensures
        out == model::names_inside(style, unique::texts(path@)),
{
    let ghost all = unique::texts(path@);
    let mut named: bool = false;
    let mut i: usize = 0;
    assert(all.take(0) =~= Seq::empty());
    while i < path.len()
        invariant
            i <= path@.len(),
            all == unique::texts(path@),
            named == (model::place(style, all.take(i as int)).len() > 0),
            forall|k: int| 0 <= k < i ==> !model::leads_out(style, #[trigger] all[k]),
        decreases path@.len() - i,
    {
        assert(all.take(i + 1).drop_last() =~= all.take(i as int));
        assert(all.take(i + 1).last() == path@[i as int]@);
        if can_lead_out(style, &path[i]) {
            assert(model::leads_out(style, all[i as int]));
            return false;
        }
        if has_names(style, &path[i]) {
            named = true;
        }
        i = i + 1;
    }
    assert(all.take(i as int) =~= all);
    named
}

/// Whether the folder of a torrent and all of its files lie where they belong.
fn all_inside(style: PathStyle, metainfo: &Metainfo) -> (out: bool)
    ensures
        out == model::layout_stays_inside(style, metainfo@.info),
{
    if can_lead_out(style, &metainfo.info.name) {
        return false;
    }
    if metainfo.info.length.is_some() {
        let ghost name = seq![metainfo@.info.name];
        assert(name.drop_last() =~= Seq::empty());
        assert(model::place(style, name.drop_last()).len() == 0);
        assert(model::place(style, name) =~= model::names(style, metainfo@.info.name));
        return has_names(style, &metainfo.info.name);
    }
    match &metainfo.info.files {
        Some(entries) => {
            let ghost all = metainfo::file_models(entries@);
            let mut i: usize = 0;
            while i < entries.len()
                invariant
                    i <= entries@.len(),
                    all == metainfo::file_models(entries@),
                    metainfo@.info.length is None,
                    metainfo@.info.files == Some(all),
                    forall|k: int|
                        0 <= k < i ==> model::names_inside(style, (#[trigger] all[k]).path),
                decreases entries@.len() - i,
            {
                assert(all[i as int] == entries@[i as int]@);
                if !path_stays_inside(style, &entries[i].path) {
                    assert(!model::names_inside(style, all[i as int].path));
                    assert(metainfo@.info.files->0 == all);
                    return false;
                }
                i = i + 1;
            }
            true
        },
        None => true,
    }
}

impl DiskManager {
    /// The files.
    pub open spec fn spans(&self) -> Seq<FileSpan> {
        file_spans(self.files@)
    }

    /// The files follow each other without gaps, and end within 64 bits.
    pub open spec fn well_formed(&self) -> bool {
        &&& model::contiguous(self.spans())
        &&& model::content_end(self.spans()) <= u64::MAX
    }

    /// The files of a torrent, on a system that reads paths in this style. A
    /// torrent is refused whose name or one of whose paths can lead out of the
    /// folder that it belongs in, or where the path of a file is that of its
    /// folder.
    pub fn new(metainfo: &Metainfo, style: PathStyle) -> (out: Result<Self, Error>)
        requires
            metainfo::content_length(metainfo@.info) <= u64::MAX,
        ensures
            out is Ok <==> model::layout_stays_inside(style, metainfo@.info),
            out matches Ok(dm) ==> {
                &&& dm.well_formed()
                &&& dm.name@ == metainfo@.info.name
                &&& dm.piece_length == metainfo@.info.piece_length
                &&& dm.spans() == model::files_of(metainfo@.info)
            },
            out matches Err(e) ==> (e matches Error::Metainfo(why) && why@
                == "file path does not stay inside its folder"@),
    {
        if !all_inside(style, metainfo) {
            return Err(Error::Metainfo("file path does not stay inside its folder".to_string()));
        }
        let name = metainfo.info.name.clone();
        let mut files: Vec<FileLayout> = Vec::new();
        let ghost expected = model::files_of(metainfo@.info);
        match metainfo.info.length {
            Some(length) => {
                let mut path: Vec<String> = Vec::new();
                path.push(name.clone());
                path.push(name.clone());
                files.push(FileLayout { path, length, offset: 0 });
                assert(files@[0]@.path =~= expected[0].path);
                assert(file_spans(files@) =~= expected);
                assert(file_spans(files@).drop_last() =~= Seq::empty());
                assert(model::contiguous(file_spans(files@).drop_last()));
            },
            None => match &metainfo.info.files {
                Some(entries) => {
                    let ghost all = metainfo::file_models(entries@);
                    let mut offset: u64 = 0;
                    let mut i: usize = 0;
                    assert(all.take(0) =~= Seq::empty());
                    while i < entries.len()
                        invariant
                            i <= entries@.len(),
                            name@ == metainfo@.info.name,
                            all == metainfo::file_models(entries@),
                            metainfo@.info.length is None,
                            metainfo@.info.files == Some(all),
                            expected == model::files_of(metainfo@.info),
                            metainfo::sum_of_lengths(all) <= u64::MAX,
                            offset == metainfo::sum_of_lengths(all.take(i as int)),
                            offset == model::content_end(file_spans(files@)),
                            file_spans(files@) == expected.take(i as int),
                            model::contiguous(file_spans(files@)),
                        decreases entries@.len() - i,
                    {
                        let entry = &entries[i];
                        assert(all[i as int] == entry@);
                        let mut path: Vec<String> = Vec::new();
                        path.push(name.clone());
                        append_texts(&mut path, &entry.path);
                        assert(unique::texts(path@) =~= expected[i as int].path);
                        let ghost before = file_spans(files@);
                        files.push(FileLayout { path, length: entry.length, offset });
                        proof {
                            assert(file_spans(files@).drop_last() =~= before);
                            assert(file_spans(files@) =~= expected.take(i + 1));
                            assert(all.take(i + 1).drop_last() =~= all.take(i as int));
                            metainfo::lemma_sum_grows(all, i + 1);
                        }
                        offset = offset + entry.length;
                        i = i + 1;
                    }
                    assert(all.take(i as int) =~= all);
                    assert(expected.take(i as int) =~= expected);
                },
                None => {
                    assert(file_spans(files@) =~= expected);
                },
            },
        }
        Ok(DiskManager { name, piece_length: metainfo.info.piece_length, files })
    }

    /// The name of the torrent.
    pub fn name(&self) -> (name: &str)
        ensures
            name@ == self.name@,
    {
        self.name.as_str()
    }

    /// The parts of the `len` bytes of the content from `start` on.
    fn parts_from(&self, start: u64, len: usize) -> (out: Vec<FilePart>)
        requires
            self.well_formed(),
            start + len <= u64::MAX,
        ensures
            part_models(out@) == model::parts(self.spans(), start as int, start + len),
    {
        let end = start + len as u64;
        let ghost all = self.spans();
        let mut out: Vec<FilePart> = Vec::new();
        let mut i: usize = 0;
        assert(all.take(0) =~= Seq::empty());
        assert(part_models(out@) =~= Seq::empty());
        while i < self.files.len()
            invariant
                self.well_formed(),
                all == self.spans(),
                i <= self.files@.len(),
                end == start + len,
                part_models(out@) == model::parts(all.take(i as int), start as int, end as int),
            decreases self.files@.len() - i,
        {
            proof {
                laws::lemma_file_within(all, i as int);
                assert(all[i as int] == self.files@[i as int]@);
                assert(all.take(i + 1).drop_last() =~= all.take(i as int));
                assert(all.take(i + 1).last() == all[i as int]);
            }
            let file_start = self.files[i].offset;
            let file_end = file_start + self.files[i].length;
            if file_start < end && start < file_end {
                let from = if start < file_start {
                    file_start
                } else {
                    start
                };
                let to = if file_end < end {
                    file_end
                } else {
                    end
                };
                let ghost before = part_models(out@);
                let part = FilePart {
                    file: i,
                    position: from - file_start,
                    start: (from - start) as usize,
                    end: (to - start) as usize,
                };
                out.push(part);
                assert(part@ == model::part_in(all[i as int], i as int, start as int, end as int));
                assert(part_models(out@) =~= before.push(part@));
            }
            i = i + 1;
        }
        assert(all.take(i as int) =~= all);
        out
    }

    /// The parts of a piece to write, and where: for each file that the piece
    /// reaches into the bytes of `data` that go there.
    pub fn write_piece(&self, piece_idx: u32, data: &[u8]) -> (out: Vec<FilePart>)
        requires
            self.well_formed(),
            piece_idx * self.piece_length + data@.len() <= u64::MAX,
        ensures
            part_models(out@) == model::parts(
                self.spans(),
                piece_idx * self.piece_length,
                piece_idx * self.piece_length + data@.len(),
            ),
    {
        assert(0 <= piece_idx * self.piece_length) by (nonlinear_arith);
        self.parts_from(piece_idx as u64 * self.piece_length, data.len())
    }

    /// The parts of a piece of `length` bytes to read, and from where.
    pub fn read_piece(&self, piece_idx: u32, length: u64) -> (out: Vec<FilePart>)
        requires
            self.well_formed(),
            piece_idx * self.piece_length + length <= u64::MAX,
            length <= usize::MAX,
        ensures
            part_models(out@) == model::parts(
                self.spans(),
                piece_idx * self.piece_length,
                piece_idx * self.piece_length + length,
            ),
    {
        assert(0 <= piece_idx * self.piece_length) by (nonlinear_arith);
        self.parts_from(piece_idx as u64 * self.piece_length, length as usize)
    }

    /// Whether a piece of `length` bytes lies within the content.
    pub fn holds_piece(&self, piece_idx: u32, length: u64) -> (out: bool)
        requires
            self.well_formed(),
        ensures
            out == (piece_idx * self.piece_length + length <= model::content_end(self.spans())),
    {
        assert(0 <= piece_idx * self.piece_length) by (nonlinear_arith);
        let mut end: u64 = 0;
        if self.files.len() > 0 {
            let last = self.files.len() - 1;
            assert(self.spans()[last as int] == self.files@[last as int]@);
            proof {
                laws::lemma_file_within(self.spans(), last as int);
            }
            end = self.files[last].offset + self.files[last].length;
        }
        match (piece_idx as u64).checked_mul(self.piece_length) {
            Some(start) => match start.checked_add(length) {
                Some(to) => to <= end,
                None => false,
            },
            None => false,
        }
    }

    /// The piece that is made of what was read of its parts, if the parts are all
    /// of it.
    pub fn assemble_piece(&self, piece_idx: u32, length: u64, chunks: &Vec<Vec<u8>>) -> (out:
        Option<Vec<u8>>)
        requires
            self.well_formed(),
            piece_idx * self.piece_length + length <= u64::MAX,
            length <= usize::MAX,
            model::fitting(
                model::parts(
                    self.spans(),
                    piece_idx * self.piece_length,
                    piece_idx * self.piece_length + length,
                ),
                chunk_models(chunks@),
            ),
        ensures
            out is Some <==> length == 0 || piece_idx * self.piece_length + length
                <= model::content_end(self.spans()),
            out matches Some(data) ==> model::made_of(
                data@,
                length as int,
                model::parts(
                    self.spans(),
                    piece_idx * self.piece_length,
                    piece_idx * self.piece_length + length,
                ),
                chunk_models(chunks@),
            ),
    {
        let parts = self.read_piece(piece_idx, length);
        let len = length as usize;
        let ghost start = piece_idx * self.piece_length;
        let ghost ps = part_models(parts@);
        let ghost cs = chunk_models(chunks@);
        proof {
            assert(0 <= start) by (nonlinear_arith)
                requires
                    start == piece_idx * self.piece_length,
            ;
            laws::law_parts_size(self.spans(), start, start + length);
        }
        let mut data: Vec<u8> = Vec::new();
        data.resize(len, 0);
        let mut filled: usize = 0;
        let mut j: usize = 0;
        assert(ps.take(0) =~= Seq::empty());
        while j < parts.len()
            invariant
                self.well_formed(),
                0 <= start,
                ps == part_models(parts@),
                ps == model::parts(self.spans(), start, start + length),
                cs == chunk_models(chunks@),
                model::fitting(ps, cs),
                j <= parts@.len(),
                len == length,
                data@.len() == len,
                filled == laws::parts_size(ps.take(j as int)),
                laws::parts_size(ps) <= len,
                forall|k: int|
                    0 <= k < j ==> data@.subrange((#[trigger] ps[k]).start, ps[k].end) == cs[k],
            decreases parts@.len() - j,
        {
            let part = parts[j];
            assert(ps[j as int] == part@);
            assert(cs[j as int] == chunks@[j as int]@);
            proof {
                laws::law_part_fits(self.spans(), start, start + length, j as int);
                assert(ps.take(j + 1).drop_last() =~= ps.take(j as int));
                laws::lemma_parts_size_grows(self.spans(), start, start + length, j + 1);
            }
            let ghost before = data@;
            write_at(&mut data, part.start, chunks[j].as_slice());
            proof {
                assert(data@.subrange(part.start as int, part.end as int) =~= cs[j as int]);
                assert forall|k: int| 0 <= k < j implies data@.subrange(
                    (#[trigger] ps[k]).start,
                    ps[k].end,
                ) == cs[k] by {
                    laws::law_parts_apart(self.spans(), start, start + length, k, j as int);
                    laws::law_part_fits(self.spans(), start, start + length, k);
                    assert(data@.subrange(ps[k].start, ps[k].end) =~= before.subrange(
                        ps[k].start,
                        ps[k].end,
                    ));
                }
            }
            filled = filled + (part.end - part.start);
            j = j + 1;
        }
        assert(ps.take(j as int) =~= ps);
        if filled == len {
            Some(data)
        } else {
            None
        }
    }
}

/// Puts a chunk into a piece.
fn write_at(data: &mut Vec<u8>, start: usize, chunk: &[u8])
    requires
        start + chunk@.len() <= old(data)@.len(),
    ensures
        final(data)@.len() == old(data)@.len(),
        forall|k: int|
            0 <= k < old(data)@.len() ==> #[trigger] final(data)@[k] == if start <= k < start
                + chunk@.len() {
                chunk@[k - start]
            } else {
                old(data)@[k]
            },
{
    let mut i: usize = 0;
    let ghost before = data@;
    while i < chunk.len()
        invariant
            i <= chunk@.len(),
            start + chunk@.len() <= before.len(),
            data@.len() == before.len(),
            forall|k: int|
                0 <= k < before.len() ==> #[trigger] data@[k] == if start <= k < start + i {
                    chunk@[k - start]
                } else {
                    before[k]
                },
        decreases chunk@.len() - i,
    {
        assert(start + i < data.len());
        data.set(start + i, chunk[i]);
        i = i + 1;
    }
}

} // verus!
