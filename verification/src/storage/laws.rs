//! What holds of every mapping of pieces to files.
use vstd::prelude::*;

use crate::metainfo;
use crate::metainfo::{FileModel, InfoModel};
use crate::piece::model;
use crate::piece::model::Download;
use crate::scan;
use crate::storage::model as layout;
use crate::storage::model::{Disk, FileSpan, PartModel, PathStyle};

verus! {

/// The files of a torrent follow each other without gaps, and end where its
/// content does.
pub proof fn law_files_fill_content(info: InfoModel)
    requires
        info.length matches Some(n) ==> n >= 0,
        info.files matches Some(files) ==> forall|i: int|
            0 <= i < files.len() ==> (#[trigger] files[i]).length >= 0,
    ensures
        layout::contiguous(layout::files_of(info)),
        layout::content_end(layout::files_of(info)) == metainfo::content_length(info),
{
    let spans = layout::files_of(info);
    match (info.length, info.files) {
        (Some(n), _) => {
            assert(spans.drop_last() =~= Seq::empty());
            assert(layout::contiguous(spans.drop_last()));
        },
        (None, Some(files)) => {
            lemma_prefix_contiguous(info, files, files.len() as int);
            assert(spans.take(files.len() as int) =~= spans);
            assert(files.take(files.len() as int) =~= files);
        },
        (None, None) => {},
    }
}

/// Every file lies in the folder that the name of the torrent gives, in the
/// download directory: its path leads through the names of the folder and then
/// through at least one more (the name of a single file is its own folder's), and
/// never up.
pub proof fn law_files_stay_inside(style: PathStyle, info: InfoModel, i: int, k: int)
    requires
        layout::layout_stays_inside(style, info),
        0 <= i < layout::files_of(info).len(),
    ensures
        ({
            let at = layout::place(style, layout::files_of(info)[i].path);
            let folder = layout::place(style, seq![info.name]);
            &&& folder.is_prefix_of(at)
            &&& folder.len() < at.len()
            &&& 0 <= k < at.len() ==> at[k] != ".."@
        }),
{
    let path = layout::files_of(info)[i].path;
    let rest = if info.length is Some {
        seq![info.name]
    } else {
        (info.files->0)[i].path
    };
    assert(layout::names_inside(style, rest)) by {
        if info.length is None {
            assert(layout::names_inside(style, (info.files->0)[i].path));
        }
    }
    assert(path =~= seq![info.name] + rest);
    lemma_place_joins(style, seq![info.name], rest);
    assert forall|m: int| 0 <= m < path.len() implies !layout::leads_out(
        style,
        #[trigger] path[m],
    ) by {
        if m > 0 {
            assert(path[m] == rest[m - 1]);
        }
    }
    let at = layout::place(style, path);
    let folder = layout::place(style, seq![info.name]);
    assert(at.subrange(0, folder.len() as int) =~= folder);
    if 0 <= k < at.len() {
        lemma_place_never_up(style, path, k);
    }
}

/// The names of two paths, one after the other.
proof fn lemma_place_joins(style: PathStyle, a: Seq<Seq<char>>, b: Seq<Seq<char>>)
    ensures
        layout::place(style, a + b) == layout::place(style, a) + layout::place(style, b),
    decreases b.len(),
{
    if b.len() == 0 {
        assert(a + b =~= a);
    } else {
        lemma_place_joins(style, a, b.drop_last());
        assert((a + b).drop_last() =~= a + b.drop_last());
    }
}

proof fn lemma_place_never_up(style: PathStyle, path: Seq<Seq<char>>, k: int)
    requires
        forall|m: int| 0 <= m < path.len() ==> !layout::leads_out(style, #[trigger] path[m]),
        0 <= k < layout::place(style, path).len(),
    ensures
        layout::place(style, path)[k] != ".."@,
    decreases path.len(),
{
    let front = layout::place(style, path.drop_last());
    if k < front.len() {
        assert forall|m: int| 0 <= m < path.drop_last().len() implies !layout::leads_out(
            style,
            #[trigger] path.drop_last()[m],
        ) by {
            assert(path.drop_last()[m] == path[m]);
        }
        lemma_place_never_up(style, path.drop_last(), k);
    } else {
        let last = layout::slashed(style, path.last());
        let parts = scan::split(last, '/');
        let n = lemma_naming_from(parts, k - front.len());
        if parts[n] == ".."@ {
            lemma_part_climbs(style, last, n);
            lemma_slashed_climbs(style, path.last());
            assert(layout::leads_out(style, path[path.len() - 1]));
        }
    }
}

/// What names something is one of the parts.
proof fn lemma_naming_from(parts: Seq<Seq<char>>, k: int) -> (n: int)
    requires
        0 <= k < layout::naming(parts).len(),
    ensures
        0 <= n < parts.len(),
        layout::naming(parts)[k] == parts[n],
    decreases parts.len(),
{
    let front = layout::naming(parts.drop_last());
    if k < front.len() {
        let n = lemma_naming_from(parts.drop_last(), k);
        n
    } else {
        parts.len() - 1
    }
}

/// A part that goes up makes the whole text go up.
proof fn lemma_part_climbs(style: PathStyle, s: Seq<char>, k: int)
    requires
        0 <= k < scan::split(s, '/').len(),
        scan::split(s, '/')[k] == ".."@,
    ensures
        exists|p: int| layout::climbs_at(style, s, p),
    decreases s.len(),
{
    let p = scan::first_of(s, '/');
    scan::lemma_first_of_found(s, '/');
    reveal_strlit("..");
    if p < s.len() {
        if k == 0 {
            assert(s.take(p) == ".."@);
            assert(s[0] == s.take(p)[0] && s[1] == s.take(p)[1]);
            assert(layout::climbs_at(style, s, 0));
        } else {
            let rest = s.skip(p + 1);
            assert(scan::split(s, '/')[k] == scan::split(rest, '/')[k - 1]);
            lemma_part_climbs(style, rest, k - 1);
            let q = choose|q: int| layout::climbs_at(style, rest, q);
            assert(layout::climbs_at(style, s, q + p + 1));
        }
    } else {
        assert(layout::climbs_at(style, s, 0));
    }
}

/// What goes up with slashes goes up as it is.
proof fn lemma_slashed_climbs(style: PathStyle, c: Seq<char>)
    requires
        exists|p: int| layout::climbs_at(style, layout::slashed(style, c), p),
    ensures
        exists|p: int| layout::climbs_at(style, c, p),
{
    let s = layout::slashed(style, c);
    let p = choose|p: int| layout::climbs_at(style, s, p);
    assert(s[p] == '.' && s[p + 1] == '.');
    assert(p > 0 ==> layout::is_separator(style, s[p - 1]));
    assert(p + 2 < s.len() ==> layout::is_separator(style, s[p + 2]));
    assert(layout::climbs_at(style, c, p));
}

proof fn lemma_prefix_contiguous(info: InfoModel, files: Seq<FileModel>, n: int)
    requires
        info.length is None,
        info.files == Some(files),
        forall|i: int| 0 <= i < files.len() ==> (#[trigger] files[i]).length >= 0,
        0 <= n <= files.len(),
    ensures
        layout::contiguous(layout::files_of(info).take(n)),
        layout::content_end(layout::files_of(info).take(n)) == metainfo::sum_of_lengths(
            files.take(n),
        ),
    decreases n,
{
    let spans = layout::files_of(info);
    if n > 0 {
        lemma_prefix_contiguous(info, files, n - 1);
        assert(spans.take(n).drop_last() =~= spans.take(n - 1));
        assert(files.take(n).drop_last() =~= files.take(n - 1));
        assert(files.take(n).last() == files[n - 1]);
    }
}

/// Every file lies within the content.
pub proof fn lemma_file_within(files: Seq<FileSpan>, i: int)
    requires
        layout::contiguous(files),
        0 <= i < files.len(),
    ensures
        0 <= files[i].offset,
        0 <= files[i].length,
        files[i].offset + files[i].length <= layout::content_end(files),
    decreases files.len(),
{
    lemma_content_end(files.drop_last());
    if i < files.len() - 1 {
        lemma_file_within(files.drop_last(), i);
    }
}

proof fn lemma_content_end(files: Seq<FileSpan>)
    requires
        layout::contiguous(files),
    ensures
        0 <= layout::content_end(files),
    decreases files.len(),
{
    if files.len() > 0 {
        lemma_content_end(files.drop_last());
    }
}

/// Of two files the earlier one ends before the later one begins.
proof fn lemma_files_apart(files: Seq<FileSpan>, i: int, j: int)
    requires
        layout::contiguous(files),
        0 <= i < j < files.len(),
    ensures
        files[i].offset + files[i].length <= files[j].offset,
    decreases files.len(),
{
    if j < files.len() - 1 {
        lemma_files_apart(files.drop_last(), i, j);
    } else {
        lemma_file_within(files.drop_last(), i);
    }
}

/// Each part lies in a file that the bytes reach into, and the files come in
/// their order.
pub proof fn lemma_parts(files: Seq<FileSpan>, start: int, end: int, j: int)
    requires
        0 <= j < layout::parts(files, start, end).len(),
    ensures
        ({
            let ps = layout::parts(files, start, end);
            let f = ps[j].file;
            &&& 0 <= f < files.len()
            &&& layout::overlaps(files[f], start, end)
            &&& ps[j] == layout::part_in(files[f], f, start, end)
            &&& forall|k: int| 0 <= k < j ==> (#[trigger] ps[k]).file < f
        }),
    decreases files.len(),
{
    let ps = layout::parts(files, start, end);
    let front = layout::parts(files.drop_last(), start, end);
    if j < front.len() {
        lemma_parts(files.drop_last(), start, end, j);
        assert(ps[j] == front[j]);
        assert(files.drop_last()[ps[j].file] == files[ps[j].file]);
        assert forall|k: int| 0 <= k < j implies (#[trigger] ps[k]).file < ps[j].file by {
            assert(ps[k] == front[k]);
        }
    } else {
        assert forall|k: int| 0 <= k < j implies (#[trigger] ps[k]).file < ps[j].file by {
            assert(ps[k] == front[k]);
            lemma_parts(files.drop_last(), start, end, k);
        }
    }
}

/// A part is made of bytes of the piece, and lies within its file.
pub proof fn law_part_fits(files: Seq<FileSpan>, start: int, end: int, j: int)
    requires
        layout::contiguous(files),
        start <= end,
        0 <= j < layout::parts(files, start, end).len(),
    ensures
        ({
            let p = layout::parts(files, start, end)[j];
            &&& 0 <= p.file < files.len()
            &&& 0 <= p.start <= p.end <= end - start
            &&& 0 <= p.position
            &&& p.position + p.end - p.start <= files[p.file].length
            &&& files[p.file].offset + p.position == start + p.start
        }),
{
    lemma_parts(files, start, end, j);
    lemma_file_within(files, layout::parts(files, start, end)[j].file);
}

/// Every byte of the content is in some file.
proof fn lemma_file_of(files: Seq<FileSpan>, at: int) -> (f: int)
    requires
        layout::contiguous(files),
        0 <= at < layout::content_end(files),
    ensures
        0 <= f < files.len(),
        files[f].offset <= at < files[f].offset + files[f].length,
    decreases files.len(),
{
    if files.last().offset <= at {
        files.len() - 1
    } else {
        let f = lemma_file_of(files.drop_last(), at);
        f
    }
}

/// A file that the bytes reach into has a part.
proof fn lemma_part_of(files: Seq<FileSpan>, start: int, end: int, f: int) -> (j: int)
    requires
        0 <= f < files.len(),
        layout::overlaps(files[f], start, end),
    ensures
        0 <= j < layout::parts(files, start, end).len(),
        layout::parts(files, start, end)[j].file == f,
    decreases files.len(),
{
    if f == files.len() - 1 {
        layout::parts(files, start, end).len() - 1
    } else {
        let j = lemma_part_of(files.drop_last(), start, end, f);
        assert(layout::parts(files, start, end)[j] == layout::parts(
            files.drop_last(),
            start,
            end,
        )[j]);
        j
    }
}

/// The parts of a piece that lies within the content cover it: every byte of it
/// is in a part.
pub proof fn law_parts_cover_piece(files: Seq<FileSpan>, start: int, end: int, k: int) -> (j: int)
    requires
        layout::contiguous(files),
        0 <= start,
        end <= layout::content_end(files),
        0 <= k < end - start,
    ensures
        0 <= j < layout::parts(files, start, end).len(),
        layout::parts(files, start, end)[j].start <= k < layout::parts(files, start, end)[j].end,
{
    let f = lemma_file_of(files, start + k);
    let j = lemma_part_of(files, start, end, f);
    lemma_parts(files, start, end, j);
    j
}

/// No byte of a piece is in two parts.
pub proof fn law_parts_apart(files: Seq<FileSpan>, start: int, end: int, i: int, j: int)
    requires
        layout::contiguous(files),
        0 <= i < j < layout::parts(files, start, end).len(),
    ensures
        layout::parts(files, start, end)[i].end <= layout::parts(files, start, end)[j].start,
        layout::parts(files, start, end)[i].file < layout::parts(files, start, end)[j].file,
{
    let ps = layout::parts(files, start, end);
    lemma_parts(files, start, end, i);
    lemma_parts(files, start, end, j);
    assert(ps[i].file < ps[j].file);
    lemma_files_apart(files, ps[i].file, ps[j].file);
}

/// The number of bytes that the parts hold.
pub open spec fn parts_size(ps: Seq<PartModel>) -> int
    decreases ps.len(),
{
    if ps.len() == 0 {
        0
    } else {
        parts_size(ps.drop_last()) + ps.last().end - ps.last().start
    }
}

/// The parts of a piece hold the bytes of it that lie within the content.
pub proof fn law_parts_size(files: Seq<FileSpan>, start: int, end: int)
    requires
        layout::contiguous(files),
        0 <= start <= end,
    ensures
        ({
            let total = layout::content_end(files);
            let to = if end < total {
                end
            } else {
                total
            };
            parts_size(layout::parts(files, start, end)) == if start < to {
                to - start
            } else {
                0
            }
        }),
    decreases files.len(),
{
    if files.len() > 0 {
        let front = files.drop_last();
        law_parts_size(front, start, end);
        lemma_content_end(front);
        if layout::overlaps(files.last(), start, end) {
            assert(layout::parts(files, start, end).drop_last() =~= layout::parts(
                front,
                start,
                end,
            ));
        }
    }
}

/// The first parts hold no more than all of them.
pub proof fn lemma_parts_size_grows(files: Seq<FileSpan>, start: int, end: int, n: int)
    requires
        layout::contiguous(files),
        start <= end,
        0 <= n <= layout::parts(files, start, end).len(),
    ensures
        parts_size(layout::parts(files, start, end).take(n)) <= parts_size(
            layout::parts(files, start, end),
        ),
    decreases layout::parts(files, start, end).len() - n,
{
    let ps = layout::parts(files, start, end);
    if n < ps.len() {
        lemma_parts_size_grows(files, start, end, n + 1);
        law_part_fits(files, start, end, n);
        assert(ps.take(n + 1).drop_last() =~= ps.take(n));
        assert(ps.take(n + 1).last() == ps[n]);
    } else {
        assert(ps.take(n) =~= ps);
    }
}

/// Whether no two files are at the same place.
pub open spec fn places_differ(style: PathStyle, files: Seq<FileSpan>) -> bool {
    forall|i: int, j: int|
        0 <= i < j < files.len() ==> layout::place(style, (#[trigger] files[i]).path)
            != layout::place(style, (#[trigger] files[j]).path)
}

proof fn lemma_after_write(
    style: PathStyle,
    disk: Disk,
    files: Seq<FileSpan>,
    start: int,
    data: Seq<u8>,
    n: int,
    j: int,
)
    requires
        layout::contiguous(files),
        places_differ(style, files),
        0 <= start,
        0 <= j < n <= layout::parts(files, start, start + data.len()).len(),
    ensures
        layout::read_part(
            style,
            layout::after_write(
                style,
                disk,
                files,
                layout::parts(files, start, start + data.len()).take(n),
                data,
            ),
            files,
            layout::parts(files, start, start + data.len())[j],
        ) == Some(
            data.subrange(
                layout::parts(files, start, start + data.len())[j].start,
                layout::parts(files, start, start + data.len())[j].end,
            ),
        ),
    decreases n,
{
    let end = start + data.len();
    let ps = layout::parts(files, start, end);
    let before = layout::after_write(style, disk, files, ps.take(n - 1), data);
    let after = layout::after_write(style, disk, files, ps.take(n), data);
    assert(ps.take(n).drop_last() =~= ps.take(n - 1));
    assert(ps.take(n).last() == ps[n - 1]);
    law_part_fits(files, start, end, j);
    law_part_fits(files, start, end, n - 1);
    let part = ps[j];
    let at = layout::place(style, files[part.file].path);
    if j == n - 1 {
        let data_part = data.subrange(part.start, part.end);
        let held = layout::held(before, at);
        assert(after[at] == model::placed(held, part.position, data_part));
        assert(after[at].subrange(part.position, part.position + part.end - part.start)
            =~= data_part);
    } else {
        lemma_after_write(style, disk, files, start, data, n - 1, j);
        law_parts_apart(files, start, end, j, n - 1);
        let other = layout::place(style, files[ps[n - 1].file].path);
        assert(layout::place(style, files[part.file].path) != other);
    }
}

/// A piece that was written is read back: each part of it gives back the bytes
/// that were written, and a piece that is made of them is the piece that was
/// written.
pub proof fn law_piece_read_back(
    style: PathStyle,
    disk: Disk,
    files: Seq<FileSpan>,
    start: int,
    data: Seq<u8>,
    back: Seq<u8>,
)
    requires
        layout::contiguous(files),
        places_differ(style, files),
        0 <= start,
        start + data.len() <= layout::content_end(files),
    ensures
        ({
            let ps = layout::parts(files, start, start + data.len());
            let after = layout::after_write(style, disk, files, ps, data);
            let chunks = Seq::new(
                ps.len(),
                |j: int| layout::read_part(style, after, files, ps[j]).unwrap_or(Seq::empty()),
            );
            &&& forall|j: int|
                0 <= j < ps.len() ==> layout::read_part(
                    style,
                    after,
                    files,
                    #[trigger] ps[j],
                ) is Some
            &&& layout::fitting(ps, chunks)
            &&& layout::made_of(back, data.len() as int, ps, chunks) <==> back == data
        }),
{
    let end = start + data.len();
    let ps = layout::parts(files, start, end);
    let after = layout::after_write(style, disk, files, ps, data);
    let chunks = Seq::new(
        ps.len(),
        |j: int| layout::read_part(style, after, files, ps[j]).unwrap_or(Seq::empty()),
    );
    assert(ps.take(ps.len() as int) =~= ps);
    assert forall|j: int| 0 <= j < ps.len() implies layout::read_part(
            style,
        after,
        files,
        #[trigger] ps[j],
    ) == Some(data.subrange(ps[j].start, ps[j].end)) by {
        lemma_after_write(style, disk, files, start, data, ps.len() as int, j);
    }
    assert forall|j: int| 0 <= j < ps.len() implies chunks[j] == data.subrange(
        (#[trigger] ps[j]).start,
        ps[j].end,
    ) && chunks[j].len() == ps[j].end - ps[j].start by {
        law_part_fits(files, start, end, j);
    }
    if layout::made_of(back, data.len() as int, ps, chunks) {
        assert forall|k: int| 0 <= k < data.len() implies back[k] == data[k] by {
            let j = law_parts_cover_piece(files, start, end, k);
            law_part_fits(files, start, end, j);
            let p = ps[j];
            assert(back.subrange(p.start, p.end) == data.subrange(p.start, p.end));
            assert(back.subrange(p.start, p.end)[k - p.start] == back[k]);
            assert(data.subrange(p.start, p.end)[k - p.start] == data[k]);
        }
        assert(back =~= data);
    }
}

/// A piece that was written is found again when a download is taken up: what is
/// made of the parts that are read counts as the piece.
pub proof fn law_written_piece_restored(
    style: PathStyle,
    disk: Disk,
    files: Seq<FileSpan>,
    start: int,
    data: Seq<u8>,
    back: Seq<u8>,
    d: Download,
    i: int,
)
    requires
        layout::contiguous(files),
        places_differ(style, files),
        0 <= start,
        start + data.len() <= layout::content_end(files),
        model::valid(d),
        0 <= i < d.total_pieces,
        !d.have[i],
        data.len() == model::piece_len(d, i),
        model::verified(d, i, data),
        ({
            let ps = layout::parts(files, start, start + data.len());
            let after = layout::after_write(style, disk, files, ps, data);
            let chunks = Seq::new(
                ps.len(),
                |j: int| layout::read_part(style, after, files, ps[j]).unwrap_or(Seq::empty()),
            );
            layout::made_of(back, data.len() as int, ps, chunks)
        }),
    ensures
        model::restorable(d, i, Some(back)),
        model::restored(d, i, Some(back)).have[i],
{
    law_piece_read_back(style, disk, files, start, data, back);
}

/// Writing a piece leaves every byte of the files as it was that is not of the
/// piece.
pub proof fn law_other_bytes_kept(
    style: PathStyle,
    disk: Disk,
    files: Seq<FileSpan>,
    start: int,
    data: Seq<u8>,
    n: int,
    f: int,
    pos: int,
)
    requires
        layout::contiguous(files),
        places_differ(style, files),
        0 <= start,
        0 <= n <= layout::parts(files, start, start + data.len()).len(),
        0 <= f < files.len(),
        disk.contains_key(layout::place(style, files[f].path)),
        0 <= pos < disk[layout::place(style, files[f].path)].len(),
        pos < files[f].length,
        !(start <= files[f].offset + pos < start + data.len()),
    ensures
        ({
            let after = layout::after_write(
                style,
                disk,
                files,
                layout::parts(files, start, start + data.len()).take(n),
                data,
            );
            let at = layout::place(style, files[f].path);
            &&& after.contains_key(at)
            &&& pos < after[at].len()
            &&& after[at][pos] == disk[at][pos]
        }),
    decreases n,
{
    if n > 0 {
        let end = start + data.len();
        let ps = layout::parts(files, start, end);
        law_other_bytes_kept(style, disk, files, start, data, n - 1, f, pos);
        assert(ps.take(n).drop_last() =~= ps.take(n - 1));
        assert(ps.take(n).last() == ps[n - 1]);
        law_part_fits(files, start, end, n - 1);
        let g = ps[n - 1].file;
        if f != g {
            if f < g {
                assert(layout::place(style, files[f].path) != layout::place(style, files[g].path));
            } else {
                assert(layout::place(style, files[g].path) != layout::place(style, files[f].path));
            }
        }
    }
}

/// Whether one of the names between the slashes is that of the directory above.
pub open spec fn goes_up(s: Seq<char>) -> bool {
    exists|k: int| 0 <= k < scan::split(s, '/').len() && #[trigger] scan::split(s, '/')[k] == ".."@
}

/// A component can lead out exactly where it goes up or starts elsewhere. On Unix
/// that is where one of the names between its slashes is `..`, or where it begins
/// with a slash; on Windows backslashes count as slashes too, and a letter and a
/// colon in front name a drive.
pub proof fn law_leads_out(c: Seq<char>)
    ensures
        layout::leads_out(PathStyle::Unix, c) <==> goes_up(c) || c.len() > 0 && c[0] == '/',
        layout::leads_out(PathStyle::Windows, c) <==> {
            ||| goes_up(layout::slashed(PathStyle::Windows, c))
            ||| c.len() > 0 && (c[0] == '/' || c[0] == '\\')
            ||| c.len() > 1 && ('a' <= c[0] <= 'z' || 'A' <= c[0] <= 'Z') && c[1] == ':'
        },
        layout::slashed(PathStyle::Windows, c).len() == c.len(),
        forall|i: int|
            0 <= i < c.len() ==> #[trigger] layout::slashed(PathStyle::Windows, c)[i] == if c[i]
                == '\\' {
                '/'
            } else {
                c[i]
            },
{
    lemma_climbs(PathStyle::Unix, c);
    lemma_climbs(PathStyle::Windows, c);
    assert(layout::slashed(PathStyle::Unix, c) =~= c);
}

proof fn lemma_climbs(style: PathStyle, c: Seq<char>)
    ensures
        (exists|p: int| layout::climbs_at(style, c, p)) <==> goes_up(layout::slashed(style, c)),
{
    let s = layout::slashed(style, c);
    if exists|p: int| layout::climbs_at(style, c, p) {
        let p = choose|p: int| layout::climbs_at(style, c, p);
        assert(s[p] == '.' && s[p + 1] == '.');
        assert(p > 0 ==> s[p - 1] == '/');
        assert(p + 2 < s.len() ==> s[p + 2] == '/');
        assert(layout::climbs_at(PathStyle::Unix, s, p));
        lemma_climbs_part(s, p);
    }
    if goes_up(s) {
        let k = choose|k: int|
            0 <= k < scan::split(s, '/').len() && #[trigger] scan::split(s, '/')[k] == ".."@;
        lemma_part_climbs(style, s, k);
        lemma_slashed_climbs(style, c);
    }
}

/// Where a text goes up, one of its parts is `..`.
proof fn lemma_climbs_part(s: Seq<char>, p: int)
    requires
        layout::climbs_at(PathStyle::Unix, s, p),
    ensures
        goes_up(s),
    decreases s.len(),
{
    let f = scan::first_of(s, '/');
    scan::laws::law_found_first(s, '/', f);
    reveal_strlit("..");
    let parts = scan::split(s, '/');
    if p == 0 {
        if s.len() > 2 {
            assert(s[2] == '/');
            scan::laws::law_found_first(s, '/', 2);
            assert(s.take(2) =~= ".."@);
        } else {
            scan::laws::law_found_first(s, '/', 2);
            assert(s =~= ".."@);
        }
        assert(parts[0] == ".."@);
    } else {
        assert(s[p - 1] == '/');
        assert(f <= p - 1);
        let rest = s.skip(f + 1);
        assert(layout::climbs_at(PathStyle::Unix, rest, p - f - 1));
        lemma_climbs_part(rest, p - f - 1);
        let k = choose|k: int|
            0 <= k < scan::split(rest, '/').len() && #[trigger] scan::split(rest, '/')[k] == ".."@;
        assert(parts[k + 1] == ".."@);
    }
}

/// Whether a component is nothing but a name.
pub open spec fn plain_name(c: Seq<char>) -> bool {
    &&& c.len() > 0
    &&& c != "."@
    &&& c != ".."@
    &&& !c.contains('/')
    &&& !c.contains('\\')
    &&& !(c.len() > 1 && c[1] == ':')
}

/// A name leads nowhere but to what it names, on every system.
pub proof fn law_plain_name(style: PathStyle, c: Seq<char>)
    requires
        plain_name(c),
    ensures
        !layout::leads_out(style, c),
        layout::names(style, c) == seq![c],
{
    assert forall|i: int| 0 <= i < c.len() implies #[trigger] c[i] != '/' && c[i] != '\\' by {
        assert(c.contains(c[i]));
    }
    assert(layout::slashed(style, c) =~= c);
    scan::laws::law_split_between(c, Seq::empty(), '/');
    let parts = scan::split(c, '/');
    assert(parts == seq![c]);
    assert(parts.drop_last() =~= Seq::empty());
    assert(layout::naming(parts.drop_last()) =~= Seq::empty());
    assert(layout::naming(parts) =~= seq![c]);
    lemma_climbs(style, c);
    if goes_up(c) {
        let k = choose|k: int| 0 <= k < parts.len() && #[trigger] parts[k] == ".."@;
        assert(parts[k] == c);
    }
}

/// Whether a path is made of names, of one at least.
pub open spec fn plain_path(path: Seq<Seq<char>>) -> bool {
    path.len() > 0 && forall|i: int| 0 <= i < path.len() ==> plain_name(#[trigger] path[i])
}

/// A path of names is taken as it is.
pub proof fn law_plain_path(style: PathStyle, path: Seq<Seq<char>>)
    requires
        forall|i: int| 0 <= i < path.len() ==> plain_name(#[trigger] path[i]),
    ensures
        layout::place(style, path) == path,
        path.len() > 0 ==> layout::names_inside(style, path),
    decreases path.len(),
{
    if path.len() > 0 {
        let front = path.drop_last();
        assert forall|i: int| 0 <= i < front.len() implies plain_name(#[trigger] front[i]) by {
            assert(plain_name(path[i]));
        }
        law_plain_path(style, front);
        assert(plain_name(path[path.len() - 1]));
        law_plain_name(style, path.last());
        assert(front + seq![path.last()] =~= path);
        assert forall|k: int| 0 <= k < path.len() implies !layout::leads_out(
            style,
            #[trigger] path[k],
        ) by {
            assert(plain_name(path[k]));
            law_plain_name(style, path[k]);
        }
    } else {
        assert(layout::place(style, path) =~= path);
    }
}

/// A torrent whose name and paths are made of names is accepted, and one with a
/// component that can lead out is not.
pub proof fn law_layout_accepted(style: PathStyle, info: InfoModel, i: int, k: int)
    ensures
        plain_name(info.name) && (info.files matches Some(files) ==> forall|f: int|
            0 <= f < files.len() ==> plain_path((#[trigger] files[f]).path))
            ==> layout::layout_stays_inside(style, info),
        layout::leads_out(style, info.name) ==> !layout::layout_stays_inside(style, info),
        info.length is None && info.files is Some && 0 <= i < info.files->0.len() && 0 <= k
            < info.files->0[i].path.len() && layout::leads_out(style, info.files->0[i].path[k])
            ==> !layout::layout_stays_inside(style, info),
        info.length is None && info.files is Some && 0 <= i < info.files->0.len()
            && info.files->0[i].path.len() == 0 ==> !layout::layout_stays_inside(style, info),
{
    if plain_name(info.name) && (info.files matches Some(files) ==> forall|f: int|
        0 <= f < files.len() ==> plain_path((#[trigger] files[f]).path)) {
        law_plain_name(style, info.name);
        law_plain_path(style, seq![info.name]);
        if let (None, Some(files)) = (info.length, info.files) {
            assert forall|f: int| 0 <= f < files.len() implies layout::names_inside(
                style,
                (#[trigger] files[f]).path,
            ) by {
                assert(plain_path(files[f].path));
                law_plain_path(style, files[f].path);
            }
        }
    }
    if info.length is None && info.files is Some && 0 <= i < info.files->0.len()
        && layout::layout_stays_inside(style, info) {
        let path = info.files->0[i].path;
        assert(layout::names_inside(style, path));
        if 0 <= k < path.len() {
            assert(!layout::leads_out(style, path[k]));
        }
    }
}

/// Every file has the path that the torrent gives it, below the name of the
/// torrent, and begins where all files before it end; a single file has the name of
/// the torrent, in a folder of that name.
pub proof fn law_file_places(info: InfoModel, i: int)
    ensures
        info.length matches Some(n) ==> {
            &&& layout::files_of(info).len() == 1
            &&& layout::files_of(info)[0].path == seq![info.name, info.name]
            &&& layout::files_of(info)[0].length == n
            &&& layout::files_of(info)[0].offset == 0
        },
        info.length is None && info.files is Some ==> layout::files_of(info).len()
            == info.files->0.len(),
        info.length is None && info.files is Some && 0 <= i < info.files->0.len() ==> {
            let (f, file) = (layout::files_of(info)[i], info.files->0[i]);
            &&& f.path == seq![info.name] + file.path
            &&& f.length == file.length
            &&& i == 0 ==> f.offset == 0
            &&& i > 0 ==> f.offset == layout::files_of(info)[i - 1].offset + info.files->0[i
                - 1].length
        },
        info.length is None && info.files is None ==> layout::files_of(info).len() == 0,
{
    if info.length is None && info.files is Some && 0 < i < info.files->0.len() {
        let files = info.files->0;
        assert(files.take(i).drop_last() =~= files.take(i - 1));
        assert(files.take(i).last() == files[i - 1]);
    }
}

/// A component with slashes in it leads through the names on both sides of them;
/// nothing and a single dot lead nowhere.
pub proof fn law_names_joined(style: PathStyle, a: Seq<char>, b: Seq<char>)
    ensures
        layout::names(style, a.push('/') + b) == layout::names(style, a) + layout::names(style, b),
        layout::names(PathStyle::Windows, a.push('\\') + b) == layout::names(
            PathStyle::Windows,
            a,
        ) + layout::names(PathStyle::Windows, b),
        layout::names(style, Seq::empty()) == Seq::<Seq<char>>::empty(),
        layout::names(style, "."@) == Seq::<Seq<char>>::empty(),
{
    let (x, y) = (layout::slashed(style, a), layout::slashed(style, b));
    assert(layout::slashed(style, a.push('/') + b) =~= x.push('/') + y);
    scan::laws::law_split_between(x, y, '/');
    lemma_naming_joined(scan::split(x, '/'), scan::split(y, '/'));
    let w = PathStyle::Windows;
    let (u, v) = (layout::slashed(w, a), layout::slashed(w, b));
    assert(layout::slashed(w, a.push('\\') + b) =~= u.push('/') + v);
    scan::laws::law_split_between(u, v, '/');
    lemma_naming_joined(scan::split(u, '/'), scan::split(v, '/'));
    let none: Seq<char> = Seq::empty();
    assert(layout::slashed(style, none) =~= none);
    scan::laws::law_split_between(none, none, '/');
    assert(seq![none].drop_last() =~= Seq::empty());
    assert(layout::naming(Seq::empty()) =~= Seq::<Seq<char>>::empty());
    reveal_strlit(".");
    assert(layout::slashed(style, "."@) =~= "."@);
    scan::laws::law_split_between("."@, none, '/');
    assert(seq!["."@].drop_last() =~= Seq::empty());
}

proof fn lemma_naming_joined(a: Seq<Seq<char>>, b: Seq<Seq<char>>)
    ensures
        layout::naming(a + b) == layout::naming(a) + layout::naming(b),
    decreases b.len(),
{
    if b.len() == 0 {
        assert(a + b =~= a);
    } else {
        lemma_naming_joined(a, b.drop_last());
        assert((a + b).drop_last() =~= a + b.drop_last());
    }
}

} // verus!
