use torentino_pure::metainfo::{FileEntry, Info, Metainfo};
use torentino_pure::piece::PieceManager;
use torentino_pure::storage::model::PathStyle;
use torentino_pure::storage::{DiskManager, FilePart};

fn torrent(length: Option<u64>, files: Option<Vec<FileEntry>>) -> Metainfo {
    Metainfo {
        announce: String::new(),
        announce_list: vec![],
        info: Info {
            piece_length: 10,
            pieces: vec![],
            name: "name".to_string(),
            length,
            files,
        },
        info_hash: [0; 20],
    }
}

fn file(length: u64, name: &str) -> FileEntry {
    FileEntry {
        length,
        path: vec!["dir".to_string(), name.to_string()],
    }
}

fn several() -> DiskManager {
    let files = vec![file(7, "a"), file(0, "b"), file(8, "c"), file(5, "d")];
    DiskManager::new(&torrent(None, Some(files)), PathStyle::Unix).unwrap()
}

fn part(file: usize, position: u64, start: usize, end: usize) -> FilePart {
    FilePart {
        file,
        position,
        start,
        end,
    }
}

#[test]
fn a_single_file_lies_in_a_directory_of_its_name() {
    let dm = DiskManager::new(&torrent(Some(25), None), PathStyle::Unix).unwrap();
    assert_eq!(dm.name(), "name");
    assert_eq!(dm.files.len(), 1);
    assert_eq!(dm.files[0].path, vec!["name", "name"]);
    assert_eq!(dm.files[0].length, 25);
    assert_eq!(dm.write_piece(2, &[0; 5]), vec![part(0, 20, 0, 5)]);
}

#[test]
fn several_files_follow_each_other() {
    let dm = several();
    let offsets: Vec<u64> = dm.files.iter().map(|f| f.offset).collect();
    assert_eq!(offsets, vec![0, 7, 7, 15]);
    assert_eq!(dm.files[1].path, vec!["name", "dir", "b"]);
    assert!(DiskManager::new(&torrent(None, None), PathStyle::Unix)
        .unwrap()
        .files
        .is_empty());
}

#[test]
fn pieces_are_cut_at_the_ends_of_files() {
    let dm = several();
    assert_eq!(
        dm.write_piece(0, &[0; 10]),
        vec![part(0, 0, 0, 7), part(1, 0, 7, 7), part(2, 0, 7, 10)]
    );
    assert_eq!(
        dm.read_piece(1, 10),
        vec![part(2, 3, 0, 5), part(3, 0, 5, 10)]
    );
    assert_eq!(dm.read_piece(2, 10), vec![]);
}

/// Writes the parts of a piece to files in memory.
fn write(disk: &mut Vec<Vec<u8>>, parts: &[FilePart], data: &[u8]) {
    for p in parts {
        let file = &mut disk[p.file];
        let end = p.position as usize + (p.end - p.start);
        if file.len() < end {
            file.resize(end, 0);
        }
        file[p.position as usize..end].copy_from_slice(&data[p.start..p.end]);
    }
}

fn read(disk: &[Vec<u8>], parts: &[FilePart]) -> Vec<Vec<u8>> {
    parts
        .iter()
        .map(|p| {
            let end = p.position as usize + (p.end - p.start);
            disk[p.file][p.position as usize..end].to_vec()
        })
        .collect()
}

#[test]
fn pieces_that_are_written_are_read_back() {
    let dm = several();
    let mut disk = vec![vec![]; 4];
    let first: Vec<u8> = (0..10).collect();
    let second: Vec<u8> = (10..20).collect();
    write(&mut disk, &dm.write_piece(1, &second), &second);
    write(&mut disk, &dm.write_piece(0, &first), &first);
    assert_eq!(disk[0], vec![0, 1, 2, 3, 4, 5, 6]);
    assert_eq!(disk[2], vec![7, 8, 9, 10, 11, 12, 13, 14]);
    for (index, data) in [(0, first), (1, second)] {
        let chunks = read(&disk, &dm.read_piece(index, 10));
        assert_eq!(dm.assemble_piece(index, 10, &chunks), Some(data));
    }
}

#[test]
fn a_piece_beyond_the_content_is_not_put_together() {
    let dm = several();
    let parts = dm.read_piece(1, 11);
    let chunks: Vec<Vec<u8>> = parts.iter().map(|p| vec![1; p.end - p.start]).collect();
    assert_eq!(dm.assemble_piece(1, 11, &chunks), None);
    assert_eq!(dm.assemble_piece(2, 10, &vec![]), None);
    assert_eq!(dm.assemble_piece(2, 0, &vec![]), Some(vec![]));
}

#[test]
fn a_piece_that_was_written_is_found_again() {
    // The digest of 7232 times the letter b.
    let hex = "c6adf58139e2466ec763833ea847b07ea9bcc1a2";
    let mut digest = [0u8; 20];
    for (i, byte) in digest.iter_mut().enumerate() {
        *byte = u8::from_str_radix(&hex[2 * i..2 * i + 2], 16).unwrap();
    }
    let mut torrent = torrent(None, Some(vec![file(7000, "a"), file(232, "b")]));
    torrent.info.piece_length = 7232;
    let dm = DiskManager::new(&torrent, PathStyle::Unix).unwrap();
    let data = vec![b'b'; 7232];
    let mut disk = vec![vec![]; 2];
    write(&mut disk, &dm.write_piece(0, &data), &data);
    let mut pm = PieceManager::new(7232, 7232, vec![digest]);
    let chunks = read(&disk, &dm.read_piece(0, 7232));
    assert!(pm.restore_piece(0, dm.assemble_piece(0, 7232, &chunks)));
    assert!(pm.is_complete());
}

fn refused(style: PathStyle, path: &[&str]) -> bool {
    let entry = FileEntry {
        length: 1,
        path: path.iter().map(|c| c.to_string()).collect(),
    };
    match DiskManager::new(&torrent(None, Some(vec![file(1, "a"), entry])), style) {
        Ok(dm) => {
            assert_eq!(dm.files[1].path[0], "name");
            assert_eq!(dm.files[1].path[1..], *path);
            false
        }
        Err(e) => {
            assert_eq!(
                e.to_string(),
                "metainfo: file path does not stay inside its folder"
            );
            true
        }
    }
}

#[test]
fn files_stay_inside_their_folder() {
    for style in [PathStyle::Unix, PathStyle::Windows] {
        for path in [
            &["b"][..],
            &["...", "b.c"],
            &["..b", "c.."],
            &["12:30.txt"],
            &["ab:c"],
            &["b/c"],
            &["b\\c"],
            &[".", "b"],
            &["", "b"],
            &["b", ""],
        ] {
            assert!(!refused(style, path), "{path:?}");
        }
        for path in [
            &[".."][..],
            &["b", ".."],
            &["b", "..", "c"],
            &["b/../.."],
            &["../b"],
            &["/etc"],
        ] {
            assert!(refused(style, path), "{path:?}");
        }
    }
    for path in [
        &["b\\..\\..\\c"][..],
        &["..\\b"],
        &["\\etc"],
        &["C:"],
        &["c:\\etc"],
        &["a:b"],
    ] {
        assert!(refused(PathStyle::Windows, path), "{path:?}");
        assert!(!refused(PathStyle::Unix, path), "{path:?}");
    }
}

#[test]
fn paths_of_the_folder_itself_are_no_files() {
    for path in [&[][..], &[""], &["."], &["./."], &["", "."]] {
        assert!(refused(PathStyle::Unix, path), "{path:?}");
        assert!(refused(PathStyle::Windows, path), "{path:?}");
    }
    assert!(refused(PathStyle::Windows, &[".\\."]));
    assert!(!refused(PathStyle::Unix, &[".\\."]));
}

#[test]
fn folders_stay_inside_the_download_directory() {
    let named = |mut torrent: Metainfo, name: &str, style: PathStyle| {
        torrent.info.name = name.to_string();
        DiskManager::new(&torrent, style)
    };
    for style in [PathStyle::Unix, PathStyle::Windows] {
        for name in ["..", "/tmp", "a/.."] {
            assert!(named(torrent(Some(1), None), name, style).is_err());
            assert!(named(torrent(None, None), name, style).is_err());
        }
        for name in ["a/b", "a\\b", "12:30", "ab: c"] {
            let single = named(torrent(Some(1), None), name, style).unwrap();
            assert_eq!(single.files[0].path, vec![name, name]);
        }
        for name in ["", "."] {
            assert!(named(torrent(Some(1), None), name, style).is_err());
            assert!(named(torrent(None, Some(vec![file(1, "a")])), name, style).is_ok());
        }
    }
    for name in ["\\tmp", "C:", "a:b"] {
        assert!(named(torrent(Some(1), None), name, PathStyle::Windows).is_err());
        assert!(named(torrent(Some(1), None), name, PathStyle::Unix).is_ok());
    }
}

#[test]
fn pieces_within_the_content() {
    let files = vec![file(5, "a"), file(7, "b")];
    let dm = DiskManager::new(&torrent(None, Some(files)), PathStyle::Unix).unwrap();
    assert!(dm.holds_piece(0, 12));
    assert!(!dm.holds_piece(0, 13));
    assert!(dm.holds_piece(1, 2));
    assert!(!dm.holds_piece(1, 3));
    assert!(!dm.holds_piece(2, 0));
    assert!(!dm.holds_piece(u32::MAX, u64::MAX));
    let none = DiskManager::new(&torrent(None, None), PathStyle::Unix).unwrap();
    assert!(none.holds_piece(0, 0));
    assert!(!none.holds_piece(0, 1));
}

#[test]
fn paths_of_a_single_file_torrent_do_not_count() {
    let both = torrent(Some(1), Some(vec![file(1, "..")]));
    assert_eq!(DiskManager::new(&both, PathStyle::Unix).unwrap().files.len(), 1);
}
