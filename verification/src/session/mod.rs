//! A download session: trackers, peers and progress.
pub mod laws;
pub mod lifecycle;
pub mod peer;
pub mod runs;
pub mod swarm;

use vstd::prelude::*;
use vstd::string::*;
use vstd::utf8::*;

use crate::bytes;
use crate::error::Error;
use crate::metainfo;
use crate::metainfo::Metainfo;
use crate::piece::model;
use crate::piece::PieceManager;
use crate::random::random_u8;
use crate::scan;
use crate::scan::{split_text, starts_with, trim};
use crate::storage;
use crate::storage::model::PathStyle;
use crate::storage::DiskManager;
use crate::unique;
use crate::unique::merge_unique;

verus! {

/// The port that trackers are told.
pub const PORT: u16 = 6881;

/// How many peers are talked to at the same time.
pub const MAX_CONCURRENT_PEERS: usize = 20;

/// What the identifications of this client begin with.
pub open spec fn client_id_prefix() -> Seq<u8> {
    encode_utf8("-TO0001-"@)
}

/// The identification that random bytes give: the prefix, and a digit for each
/// byte.
pub open spec fn peer_id_of(random: Seq<u8>) -> Seq<u8> {
    client_id_prefix() + Seq::new(
        random.len(),
        |i: int| ((random[i] + 48) % 256 % 10 + 48) as u8,
    )
}

proof fn lemma_prefix_len()
    ensures
        client_id_prefix().len() == 8,
{
    reveal_strlit("-TO0001-");
    is_ascii_chars_encode_utf8("-TO0001-"@);
}

/// The identification that random bytes give.
pub fn peer_id_from(random: &[u8; 12]) -> (id: [u8; 20])
    ensures
        id@ == peer_id_of(random@),
{
    let prefix = "-TO0001-".as_bytes();
    proof {
        lemma_prefix_len();
    }
    let mut id: [u8; 20] = [0;20];
    let mut i: usize = 0;
    while i < 20
        invariant
            i <= 20,
            prefix@ == client_id_prefix(),
            prefix@.len() == 8,
            forall|k: int| 0 <= k < i ==> #[trigger] id@[k] == peer_id_of(random@)[k],
        decreases 20 - i,
    {
        if i < 8 {
            id[i] = prefix[i];
        } else {
            let byte = random[i - 8].wrapping_add(48);
            assert(byte == (random@[i - 8] + 48) % 256);
            id[i] = byte % 10 + 48;
        }
        i = i + 1;
    }
    assert(id@ =~= peer_id_of(random@));
    id
}

/// A random identification: the prefix of this client and twelve digits.
pub fn generate_peer_id() -> (id: [u8; 20])
    ensures
        exists|random: Seq<u8>| random.len() == 12 && id@ == #[trigger] peer_id_of(random),
        id@.take(8) == client_id_prefix(),
        forall|i: int| 8 <= i < 20 ==> 48 <= #[trigger] id@[i] <= 57,
{
    let mut random: [u8; 12] = [0;12];
    let mut i: usize = 0;
    while i < 12
        invariant
            i <= 12,
        decreases 12 - i,
    {
        random[i] = random_u8();
        i = i + 1;
    }
    let id = peer_id_from(&random);
    proof {
        lemma_prefix_len();
        assert(id@.take(8) =~= client_id_prefix());
        assert(id@ == peer_id_of(random@));
    }
    id
}

/// The trackers that are asked besides those of the torrent.
pub open spec fn default_tracker_texts() -> Seq<Seq<char>> {
    seq![
        "udp://tracker.opentrackr.org:1337/announce"@,
        "https://tracker.gbitt.info/announce"@,
    ]
}

/// The trackers that are asked besides those of the torrent.
pub fn default_trackers() -> (out: Vec<String>)
    ensures
        unique::texts(out@) == default_tracker_texts(),
{
    let mut out: Vec<String> = Vec::new();
    out.push("udp://tracker.opentrackr.org:1337/announce".to_string());
    out.push("https://tracker.gbitt.info/announce".to_string());
    assert(unique::texts(out@) =~= default_tracker_texts());
    out
}

/// Whether a text begins as the URL of a tracker does.
pub open spec fn tracker_like(s: Seq<char>) -> bool {
    ||| "http://"@.is_prefix_of(s)
    ||| "https://"@.is_prefix_of(s)
    ||| "udp://"@.is_prefix_of(s)
}

/// The texts that begin as the URLs of trackers do, without white space around
/// them.
pub open spec fn tracker_like_among(parts: Seq<Seq<char>>) -> Seq<Seq<char>>
    decreases parts.len(),
{
    if parts.len() == 0 {
        Seq::empty()
    } else {
        let front = tracker_like_among(parts.drop_last());
        let last = scan::trimmed(parts.last());
        if tracker_like(last) {
            front.push(last)
        } else {
            front
        }
    }
}

/// The trackers of a list with commas between them, each once.
pub open spec fn listed_trackers(raw: Seq<char>) -> Seq<Seq<char>> {
    unique::unique(tracker_like_among(scan::split(raw, ',')))
}

/// The trackers of a list with commas between them.
pub fn parse_tracker_list(raw: &str) -> (out: Vec<String>)
    ensures
        unique::texts(out@) == listed_trackers(raw@),
{
    let parts = split_text(raw, ',');
    let ghost all = scan::split(raw@, ',');
    let mut urls: Vec<String> = Vec::new();
    let mut i: usize = 0;
    assert(all.take(0) =~= Seq::empty());
    assert(unique::texts(urls@) =~= Seq::empty());
    while i < parts.len()
        invariant
            i <= parts@.len(),
            all == scan::slices(parts@),
            unique::texts(urls@) == tracker_like_among(all.take(i as int)),
        decreases parts@.len() - i,
    {
        assert(all.take(i + 1).drop_last() =~= all.take(i as int));
        assert(all.take(i + 1).last() == parts@[i as int]@);
        let url = trim(parts[i]);
        if starts_with(url, "http://") || starts_with(url, "https://") || starts_with(
            url,
            "udp://",
        ) {
            let ghost before = unique::texts(urls@);
            urls.push(url.to_string());
            assert(unique::texts(urls@) =~= before.push(url@));
        }
        i = i + 1;
    }
    assert(all.take(i as int) =~= all);
    merge_unique(urls)
}

/// The trackers to ask: those of the override where it names any, else those of
/// the torrent and after them the default ones, each once.
pub open spec fn effective(builtin: Seq<Seq<char>>, env_override: Option<Seq<char>>) -> Seq<
    Seq<char>,
> {
    match env_override {
        Some(raw) if listed_trackers(raw).len() > 0 => listed_trackers(raw),
        _ => unique::unique(builtin + default_tracker_texts()),
    }
}

/// The text, if there is one.
pub open spec fn slice_text(s: Option<&str>) -> Option<Seq<char>> {
    match s {
        Some(t) => Some(t@),
        None => None,
    }
}

/// The trackers to ask.
pub fn effective_trackers(builtin: Vec<String>, env_override: Option<&str>) -> (out: Vec<String>)
    ensures
        unique::texts(out@) == effective(unique::texts(builtin@), slice_text(env_override)),
{
    match env_override {
        Some(raw) => {
            let parsed = parse_tracker_list(raw);
            assert(parsed@.len() == unique::texts(parsed@).len());
            if parsed.len() > 0 {
                return parsed;
            }
        },
        None => {},
    }
    let mut all = builtin;
    let mut more = default_trackers();
    let ghost first = unique::texts(all@);
    let ghost second = unique::texts(more@);
    all.append(&mut more);
    assert(unique::texts(all@) =~= first + second);
    merge_unique(all)
}

/// An override that is nothing but white space counts as none.
pub proof fn law_blank_override_ignored(builtin: Seq<Seq<char>>, raw: Seq<char>)
    requires
        scan::trimmed(raw).len() == 0,
    ensures
        effective(builtin, Some(raw)) == effective(builtin, None),
{
    scan::lemma_trimmed_blank(raw);
    assert forall|i: int| 0 <= i < raw.len() implies #[trigger] raw[i] != ',' by {
        assert(scan::is_white(raw[i]));
    }
    scan::lemma_first_of(raw, ',', raw.len() as int);
    let parts = scan::split(raw, ',');
    assert(parts =~= seq![raw]);
    reveal_strlit("http://");
    reveal_strlit("https://");
    reveal_strlit("udp://");
    assert(!tracker_like(scan::trimmed(raw)));
    assert(parts.drop_last() =~= Seq::empty());
    assert(tracker_like_among(parts.drop_last()) =~= Seq::empty());
}

/// Without an override, the trackers of the torrent come first, in their order
/// where they are all different, and the default ones are among them.
pub proof fn law_defaults_appended(builtin: Seq<Seq<char>>)
    ensures
        effective(builtin, None).no_duplicates(),
        forall|url: Seq<char>| #[trigger]
            effective(builtin, None).contains(url) <==> builtin.contains(url)
                || default_tracker_texts().contains(url),
        builtin.len() > 0 ==> effective(builtin, None).len() > 0 && effective(builtin, None)[0]
            == builtin[0],
        builtin.no_duplicates() ==> builtin.is_prefix_of(effective(builtin, None)),
{
    let all = builtin + default_tracker_texts();
    unique::law_unique(all);
    assert forall|url: Seq<char>| #[trigger] effective(builtin, None).contains(url) <==> builtin.contains(
        url,
    ) || default_tracker_texts().contains(url) by {
        if builtin.contains(url) {
            let i = choose|i: int| 0 <= i < builtin.len() && builtin[i] == url;
            assert(all[i] == url);
        }
        if default_tracker_texts().contains(url) {
            let i = choose|i: int|
                0 <= i < default_tracker_texts().len() && default_tracker_texts()[i] == url;
            assert(all[builtin.len() + i] == url);
        }
        if all.contains(url) {
            let i = choose|i: int| 0 <= i < all.len() && all[i] == url;
            if i < builtin.len() {
                assert(builtin[i] == url);
            } else {
                assert(default_tracker_texts()[i - builtin.len()] == url);
            }
        }
    }
    if builtin.no_duplicates() {
        unique::law_unique_keeps(builtin);
        unique::law_unique_prefix(builtin, default_tracker_texts());
    }
}

/// An override that names trackers replaces all others.
pub proof fn law_override_replaces(builtin: Seq<Seq<char>>, raw: Seq<char>)
    requires
        listed_trackers(raw).len() > 0,
    ensures
        effective(builtin, Some(raw)) == listed_trackers(raw),
        listed_trackers(raw).no_duplicates(),
        forall|i: int|
            0 <= i < listed_trackers(raw).len() ==> tracker_like(
                #[trigger] listed_trackers(raw)[i],
            ),
{
    let among = tracker_like_among(scan::split(raw, ','));
    unique::law_unique(among);
    assert forall|i: int| 0 <= i < listed_trackers(raw).len() implies tracker_like(
        #[trigger] listed_trackers(raw)[i],
    ) by {
        assert(unique::unique(among).contains(listed_trackers(raw)[i]));
        assert(among.contains(listed_trackers(raw)[i]));
        let k = choose|k: int| 0 <= k < among.len() && among[k] == listed_trackers(raw)[i];
        lemma_among_tracker_like(scan::split(raw, ','), k);
    }
}

proof fn lemma_among_tracker_like(parts: Seq<Seq<char>>, k: int)
    requires
        0 <= k < tracker_like_among(parts).len(),
    ensures
        tracker_like(tracker_like_among(parts)[k]),
    decreases parts.len(),
{
    let front = tracker_like_among(parts.drop_last());
    if k < front.len() {
        lemma_among_tracker_like(parts.drop_last(), k);
        assert(tracker_like_among(parts)[k] == front[k]);
    }
}

/// What a session needs besides what it reads and writes: the torrent, the
/// identification of this client, the pieces, the files and the trackers.
pub struct Session {
    pub metainfo: Metainfo,
    pub peer_id: [u8; 20],
    pub piece_manager: PieceManager,
    pub disk_manager: DiskManager,
    pub port: u16,
    pub trackers: Vec<String>,
}

/// The digests, once more.
fn copy_digests(pieces: &Vec<[u8; 20]>) -> (out: Vec<[u8; 20]>)
    ensures
        out@ == pieces@,
{
    let mut out: Vec<[u8; 20]> = Vec::new();
    let mut i: usize = 0;
    while i < pieces.len()
        invariant
            i <= pieces@.len(),
            out@ == pieces@.take(i as int),
        decreases pieces@.len() - i,
    {
        out.push(pieces[i]);
        i = i + 1;
        assert(out@ =~= pieces@.take(i as int));
    }
    assert(out@ =~= pieces@);
    out
}

impl Session {
    /// A session for a torrent, with a random identification. `env_override` is
    /// the list of trackers that the environment names, and `style` is how the
    /// system reads paths. A torrent whose files do not stay inside their folder is
    /// refused.
    pub fn new(metainfo: Metainfo, env_override: Option<&str>, style: PathStyle) -> (out: Result<
        Self,
        Error,
    >)
        requires
            metainfo::content_length(metainfo@.info) <= u64::MAX,
            metainfo@.info.piece_length == 0 ==> metainfo::content_length(metainfo@.info) == 0
                || bytes::low32(metainfo@.info.pieces.len() as int) == 0,
        ensures
            out is Ok <==> storage::model::layout_stays_inside(style, metainfo@.info),
            out matches Ok(session) ==> session.starts(metainfo, slice_text(env_override)),
            out matches Err(e) ==> (e matches Error::Metainfo(why) && why@
                == "file path does not stay inside its folder"@),
    {
        let peer_id = generate_peer_id();
        let disk_manager = match DiskManager::new(&metainfo, style) {
            Ok(dm) => dm,
            Err(e) => {
                return Err(e);
            },
        };
        let piece_manager = PieceManager::new(
            metainfo.info.piece_length,
            metainfo.total_length(),
            copy_digests(&metainfo.info.pieces),
        );
        let trackers = effective_trackers(metainfo.trackers(), env_override);
        Ok(Session { metainfo, peer_id, piece_manager, disk_manager, port: PORT, trackers })
    }

    /// Whether this is a session for a torrent in which nothing happened yet.
    pub open spec fn starts(&self, metainfo: Metainfo, env_override: Option<Seq<char>>) -> bool {
        &&& self.metainfo == metainfo
        &&& exists|random: Seq<u8>| random.len() == 12 && self.peer_id@ == #[trigger] peer_id_of(
            random,
        )
        &&& model::valid(self.piece_manager@)
        &&& self.piece_manager@ == model::fresh(
            metainfo@.info.piece_length as u64,
            metainfo::content_length(metainfo@.info) as u64,
            metainfo@.info.pieces,
        )
        &&& self.disk_manager.well_formed()
        &&& self.disk_manager.name@ == metainfo@.info.name
        &&& self.disk_manager.piece_length == metainfo@.info.piece_length
        &&& self.disk_manager.spans() == storage::model::files_of(metainfo@.info)
        &&& self.port == PORT
        &&& unique::texts(self.trackers@) == effective(
            metainfo::tracker_texts(metainfo@),
            env_override,
        )
    }
}

/// What is shown of a download.
#[derive(Debug)]
pub struct Progress {
    pub downloaded: u64,
    pub total: u64,
    pub pieces_done: usize,
    pub pieces_total: usize,
    pub active_peers: usize,
    pub speed: u64,
}

/// The units in which numbers of bytes are shown.
#[derive(Debug, Clone, Copy, PartialEq, Eq, Structural)]
pub enum ByteUnit {
    Bytes,
    Kibibytes,
    Mebibytes,
    Gibibytes,
}

/// The largest unit of which there is at least one.
pub fn byte_unit(bytes: u64) -> (unit: ByteUnit)
    ensures
        unit == if bytes >= 1024 * 1024 * 1024 {
            ByteUnit::Gibibytes
        } else if bytes >= 1024 * 1024 {
            ByteUnit::Mebibytes
        } else if bytes >= 1024 {
            ByteUnit::Kibibytes
        } else {
            ByteUnit::Bytes
        },
{
    if bytes >= 0x4000_0000 {
        ByteUnit::Gibibytes
    } else if bytes >= 0x10_0000 {
        ByteUnit::Mebibytes
    } else if bytes >= 0x400 {
        ByteUnit::Kibibytes
    } else {
        ByteUnit::Bytes
    }
}

} // verus!
