# torentino-pure

A BitTorrent client: it reads a `.torrent` file, asks HTTP(S) and UDP trackers
for peers, downloads the pieces from them, checks each piece against its SHA-1
digest and writes it to the files that it belongs to.

`src/` is the library. It is written in Verus: what every function does is
stated in its contract and proved, and laws that span functions are proof
functions named `law_..`. Seven functions only make a call that Verus does not
see; their contracts are believed:

- `digest::sha1_digest`: SHA-1, by the `sha1` crate
- `random::random_u32`, `random::random_u8`: random numbers, by `rand`
- `tracker::weburl::parse_url`, `tracker::weburl::join_url`: URLs, by `url`
- `text::utf8_text`, `tracker::http::from_utf8_lossy`: text, by the standard
  library

- `bencode`: the format of torrent files and tracker answers
- `metainfo`: what a torrent file says, and the identity of a torrent
- `peer`: handshakes and messages between peers
- `piece`: which pieces are complete, what to ask for next, the blocks that came in
- `storage`: the mapping of pieces to files
- `tracker`: what is sent to trackers and what they answer
- `session`: the trackers to ask, the peers to talk to, the session with one peer,
  a run from its start to its end
- `timestamp`: dates and times of day
- `bitfield`, `bytes`, `digest`, `random`, `scan`, `text`, `unique`: what these
  modules share

`app/` is the command line client around it: files, sockets, TLS, logging.

    torrentino <torrent-file> [download-directory]

`TORRENTINO_TRACKERS` replaces the list of trackers (URLs with commas between
them).
