//! The content as one stream of bytes, cut into files.
use vstd::prelude::*;

use crate::metainfo::InfoModel;
use crate::metainfo;
use crate::piece::model;
use crate::scan;

verus! {

/// A file: its path below the download directory and the part of the content
/// that it holds.
pub struct FileSpan {
    pub path: Seq<Seq<char>>,
    pub length: int,
    pub offset: int,
}

/// A part of a piece that lies in one file.
pub struct PartModel {
    /// The number of the file.
    pub file: int,
    /// Where the part begins in the file.
    pub position: int,
    /// Where the part begins in the piece.
    pub start: int,
    /// Where the part ends in the piece.
    pub end: int,
}

/// The files of a torrent, one after the other: a single file lies in a
/// directory of its own name, and so do several.
pub open spec fn files_of(info: InfoModel) -> Seq<FileSpan> {
    match (info.length, info.files) {
        (Some(n), _) => seq![FileSpan { path: seq![info.name, info.name], length: n, offset: 0 }],
        (None, Some(files)) => Seq::new(
            files.len(),
            |i: int|
                FileSpan {
                    path: seq![info.name] + files[i].path,
                    length: files[i].length,
                    offset: metainfo::sum_of_lengths(files.take(i)),
                },
        ),
        (None, None) => Seq::empty(),
    }
}

/// How a system reads paths.
#[derive(Debug, Clone, Copy, PartialEq, Eq, Structural)]
pub enum PathStyle {
    Unix,
    Windows,
}

/// Whether a character separates the components of a path.
pub open spec fn is_separator(style: PathStyle, c: char) -> bool {
    c == '/' || style == PathStyle::Windows && c == '\\'
}

/// Whether a text goes up a directory at `p`.
pub open spec fn climbs_at(style: PathStyle, c: Seq<char>, p: int) -> bool {
    &&& 0 <= p
    &&& p + 2 <= c.len()
    &&& c[p] == '.'
    &&& c[p + 1] == '.'
    &&& p == 0 || is_separator(style, c[p - 1])
    &&& p + 2 == c.len() || is_separator(style, c[p + 2])
}

/// Whether a text begins with the letter of a drive.
pub open spec fn names_drive(c: Seq<char>) -> bool {
    c.len() > 1 && ('a' <= c[0] <= 'z' || 'A' <= c[0] <= 'Z') && c[1] == ':'
}

/// Whether a component of a path can lead out of the directory that it is taken
/// in: it goes up, or it is a path that starts elsewhere, at a root or on a drive.
pub open spec fn leads_out(style: PathStyle, c: Seq<char>) -> bool {
    ||| exists|p: int| climbs_at(style, c, p)
    ||| c.len() > 0 && is_separator(style, c[0])
    ||| style == PathStyle::Windows && names_drive(c)
}

/// A text with slashes in place of all that separates.
pub open spec fn slashed(style: PathStyle, c: Seq<char>) -> Seq<char> {
    c.map_values(
        |x: char|
            if is_separator(style, x) {
                '/'
            } else {
                x
            },
    )
}

/// The texts that name something: all but empty ones and single dots.
pub open spec fn naming(parts: Seq<Seq<char>>) -> Seq<Seq<char>>
    decreases parts.len(),
{
    if parts.len() == 0 {
        Seq::empty()
    } else {
        let front = naming(parts.drop_last());
        if parts.last().len() == 0 || parts.last() == "."@ {
            front
        } else {
            front.push(parts.last())
        }
    }
}

/// The names that a component leads through.
pub open spec fn names(style: PathStyle, c: Seq<char>) -> Seq<Seq<char>> {
    naming(scan::split(slashed(style, c), '/'))
}

/// The names that a path leads through. Two paths with the same names lead to the
/// same file.
pub open spec fn place(style: PathStyle, path: Seq<Seq<char>>) -> Seq<Seq<char>>
    decreases path.len(),
{
    if path.len() == 0 {
        Seq::empty()
    } else {
        place(style, path.drop_last()) + names(style, path.last())
    }
}

/// Whether a path names something below the folder that it starts from. A path
/// that leads through no names is that of the folder itself.
pub open spec fn names_inside(style: PathStyle, path: Seq<Seq<char>>) -> bool {
    &&& place(style, path).len() > 0
    &&& forall|k: int| 0 <= k < path.len() ==> !leads_out(style, #[trigger] path[k])
}

/// Whether the folder of a torrent lies in the download directory, and all of its
/// files in that folder.
pub open spec fn layout_stays_inside(style: PathStyle, info: InfoModel) -> bool {
    &&& !leads_out(style, info.name)
    &&& match (info.length, info.files) {
        (Some(_), _) => names_inside(style, seq![info.name]),
        (None, Some(files)) => forall|i: int|
            0 <= i < files.len() ==> names_inside(style, (#[trigger] files[i]).path),
        (None, None) => true,
    }
}

/// Where the content ends.
pub open spec fn content_end(files: Seq<FileSpan>) -> int {
    if files.len() == 0 {
        0
    } else {
        files.last().offset + files.last().length
    }
}

/// Whether each file begins where the one before it ends, the first one at the
/// start of the content.
pub open spec fn contiguous(files: Seq<FileSpan>) -> bool
    decreases files.len(),
{
    files.len() == 0 || {
        &&& contiguous(files.drop_last())
        &&& files.last().offset == content_end(files.drop_last())
        &&& 0 <= files.last().length
    }
}

/// Whether bytes from `start` to `end` of the content reach into the file.
pub open spec fn overlaps(f: FileSpan, start: int, end: int) -> bool {
    f.offset < end && start < f.offset + f.length
}

/// The part of the bytes from `start` to `end` that lies in the file numbered
/// `i`.
pub open spec fn part_in(f: FileSpan, i: int, start: int, end: int) -> PartModel {
    let from = if start < f.offset {
        f.offset
    } else {
        start
    };
    let to = if f.offset + f.length < end {
        f.offset + f.length
    } else {
        end
    };
    PartModel { file: i, position: from - f.offset, start: from - start, end: to - start }
}

/// The parts of the bytes from `start` to `end` of the content, file by file.
pub open spec fn parts(files: Seq<FileSpan>, start: int, end: int) -> Seq<PartModel>
    decreases files.len(),
{
    if files.len() == 0 {
        Seq::empty()
    } else {
        let front = parts(files.drop_last(), start, end);
        if overlaps(files.last(), start, end) {
            front.push(part_in(files.last(), files.len() - 1, start, end))
        } else {
            front
        }
    }
}

/// What the files hold, by the names that their paths lead through.
pub type Disk = Map<Seq<Seq<char>>, Seq<u8>>;

/// What a file holds; one that does not exist holds nothing.
pub open spec fn held(disk: Disk, at: Seq<Seq<char>>) -> Seq<u8> {
    if disk.contains_key(at) {
        disk[at]
    } else {
        Seq::empty()
    }
}

/// After the parts of a piece are written to their files. A file that does not
/// exist is created, and one that is too short grows.
pub open spec fn after_write(
    style: PathStyle,
    disk: Disk,
    files: Seq<FileSpan>,
    parts: Seq<PartModel>,
    data: Seq<u8>,
) -> Disk
    decreases parts.len(),
{
    if parts.len() == 0 {
        disk
    } else {
        let before = after_write(style, disk, files, parts.drop_last(), data);
        let part = parts.last();
        let at = place(style, files[part.file].path);
        before.insert(
            at,
            model::placed(held(before, at), part.position, data.subrange(part.start, part.end)),
        )
    }
}

/// What is read of a part from its file. A file that is too short, or that does
/// not exist, gives nothing.
pub open spec fn read_part(
    style: PathStyle,
    disk: Disk,
    files: Seq<FileSpan>,
    part: PartModel,
) -> Option<Seq<u8>> {
    let at = place(style, files[part.file].path);
    let to = part.position + part.end - part.start;
    if disk.contains_key(at) && to <= disk[at].len() {
        Some(disk[at].subrange(part.position, to))
    } else {
        None
    }
}

/// Whether a piece of `len` bytes is made of the chunks that were read of its
/// parts.
pub open spec fn made_of(
    data: Seq<u8>,
    len: int,
    parts: Seq<PartModel>,
    chunks: Seq<Seq<u8>>,
) -> bool {
    &&& data.len() == len
    &&& forall|j: int|
        0 <= j < parts.len() ==> data.subrange((#[trigger] parts[j]).start, parts[j].end)
            == chunks[j]
}

/// Whether the chunks have the lengths of the parts.
pub open spec fn fitting(parts: Seq<PartModel>, chunks: Seq<Seq<u8>>) -> bool {
    &&& chunks.len() == parts.len()
    &&& forall|j: int|
        0 <= j < parts.len() ==> chunks[j].len() == (#[trigger] parts[j]).end - parts[j].start
}

} // verus!
