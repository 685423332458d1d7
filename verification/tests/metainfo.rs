use torentino_pure::bencode::{decode, encode, BencodeDict, BencodeValue};
use torentino_pure::error::Error;
use torentino_pure::metainfo::Metainfo;

fn info_dict() -> BencodeValue {
    let mut info = BencodeDict::new();
    info.insert(b"piece length".to_vec(), BencodeValue::Int(4));
    info.insert(b"name".to_vec(), BencodeValue::Bytes(b"x.bin".to_vec()));
    info.insert(b"length".to_vec(), BencodeValue::Int(4));
    info.insert(b"pieces".to_vec(), BencodeValue::Bytes(vec![0u8; 60]));
    BencodeValue::Dict(info)
}

fn make(announce: &str, announce_list: Option<Vec<Vec<&str>>>) -> Metainfo {
    let mut top = BencodeDict::new();
    top.insert(
        b"announce".to_vec(),
        BencodeValue::Bytes(announce.as_bytes().to_vec()),
    );
    if let Some(tiers) = announce_list {
        top.insert(
            b"announce-list".to_vec(),
            BencodeValue::List(
                tiers
                    .into_iter()
                    .map(|tier| {
                        BencodeValue::List(
                            tier.into_iter()
                                .map(|u| BencodeValue::Bytes(u.as_bytes().to_vec()))
                                .collect(),
                        )
                    })
                    .collect(),
            ),
        );
    }
    top.insert(b"info".to_vec(), info_dict());
    Metainfo::from_bytes(&encode(&BencodeValue::Dict(top))).unwrap()
}

#[test]
fn trackers_flatten_tiers_and_dedupe() {
    let m = make(
        "http://a.example/announce",
        Some(vec![
            vec![
                "https://t1.example/announce",
                "udp://t2.example:6969/announce",
            ],
            vec!["http://a.example/announce"],
            vec!["https://t1.example/announce"],
        ]),
    );
    assert_eq!(
        m.trackers(),
        vec![
            "https://t1.example/announce",
            "udp://t2.example:6969/announce",
            "http://a.example/announce",
        ]
    );
}

#[test]
fn trackers_fallback_to_primary() {
    let m = make("http://primary.example/announce", None);
    assert_eq!(m.trackers(), vec!["http://primary.example/announce"]);
    assert_eq!(
        m.announce_list,
        vec![vec!["http://primary.example/announce".to_string()]]
    );
}

fn torrent(info: &[u8]) -> Vec<u8> {
    let mut data = b"d8:announce3:url4:info".to_vec();
    data.extend_from_slice(info);
    data.push(b'e');
    data
}

fn hex(bytes: &[u8]) -> String {
    let mut out = String::new();
    for b in bytes {
        out.push_str(&format!("{b:02x}"));
    }
    out
}

const SMALL: &[u8] = b"d6:lengthi1e4:name1:n12:piece lengthi1e6:pieces20:xxxxxxxxxxxxxxxxxxxxe";

#[test]
fn identity_is_the_digest_of_the_info_bytes() {
    let m = Metainfo::from_bytes(&torrent(SMALL)).unwrap();
    assert_eq!(hex(&m.info_hash), "00f49aa8f73b36f442db9952b18c561445c68476");
    assert_eq!(m.announce, "url");
    assert_eq!(m.info.name, "n");
    assert_eq!(m.info.piece_length, 1);
    assert_eq!(m.info.pieces, vec![[b'x'; 20]]);
    assert_eq!(m.info.length, Some(1));
    assert!(m.info.files.is_none());
    assert_eq!(m.total_length(), 1);
}

#[test]
fn identity_depends_on_the_info_alone() {
    let other = [b"d8:announce5:other7:comment2:hi4:info".to_vec(), SMALL.to_vec(), b"e".to_vec()];
    let m = Metainfo::from_bytes(&other.concat()).unwrap();
    assert_eq!(hex(&m.info_hash), "00f49aa8f73b36f442db9952b18c561445c68476");
    assert_eq!(m.announce, "other");
}

#[test]
fn bytes_behind_the_torrent_change_nothing() {
    let mut data = torrent(SMALL);
    data.extend_from_slice(b"garbage");
    let m = Metainfo::from_bytes(&data).unwrap();
    assert_eq!(hex(&m.info_hash), "00f49aa8f73b36f442db9952b18c561445c68476");
}

#[test]
fn several_files() {
    let info = b"d5:filesld6:lengthi3e4:pathl1:a1:beed6:lengthi0e4:pathl1:ceed4:pathl1:deee4:name1:n12:piece lengthi2e6:pieces0:e";
    let m = Metainfo::from_bytes(&torrent(info)).unwrap();
    let files = m.info.files.as_ref().unwrap();
    assert_eq!(files.len(), 2);
    assert_eq!(files[0].path, vec!["a", "b"]);
    assert_eq!(files[0].length, 3);
    assert_eq!(files[1].path, vec!["c"]);
    assert_eq!(m.total_length(), 3);
}

fn refusal(data: &[u8]) -> String {
    Metainfo::from_bytes(data).unwrap_err().to_string()
}

#[test]
fn every_torrent_refusal_has_its_message() {
    assert_eq!(refusal(b"x"), "metainfo: bencode error: unexpected byte: 120");
    assert_eq!(refusal(b"i1e"), "metainfo: top level not a dict");
    assert_eq!(refusal(b"de"), "metainfo: missing 'announce'");
    assert_eq!(refusal(b"d8:announce1:ue"), "metainfo: missing 'info'");
    assert_eq!(refusal(&torrent(b"i1e")), "metainfo: 'info' is not a dict");
    assert_eq!(refusal(&torrent(b"de")), "metainfo: missing 'piece length'");
    assert_eq!(
        refusal(&torrent(b"d12:piece lengthi1ee")),
        "metainfo: missing 'pieces'"
    );
    assert_eq!(
        refusal(&torrent(b"d12:piece lengthi1e6:pieces1:xe")),
        "metainfo: pieces length not multiple of 20"
    );
    assert_eq!(
        refusal(&torrent(b"d12:piece lengthi1e6:pieces0:e")),
        "metainfo: missing 'name'"
    );
}

#[test]
fn errors_are_shown() {
    assert_eq!(
        Error::from(decode(b"x").unwrap_err()).to_string(),
        "bencode: bencode error: unexpected byte: 120"
    );
    assert_eq!(Error::Tracker("t".to_string()).to_string(), "tracker: t");
    assert_eq!(Error::Peer("p".to_string()).to_string(), "peer: p");
    assert_eq!(Error::Io("i".to_string()).to_string(), "io: i");
    assert_eq!(
        Error::PieceHash(17).to_string(),
        "piece hash mismatch at piece 17"
    );
}
