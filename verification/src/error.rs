//! The errors of the library.
use vstd::prelude::*;
use vstd::string::*;

use crate::bencode::BencodeError;
use crate::text;
use crate::text::{joined, number_text};

verus! {

#[derive(Debug)]
pub enum Error {
    Bencode(String),
    Metainfo(String),
    Tracker(String),
    Peer(String),
    PieceHash(u32),
    Io(String),
}

impl Error {
    /// The text of the error.
    pub open spec fn text(&self) -> Seq<char> {
        match *self {
            Error::Bencode(s) => "bencode: "@ + s@,
            Error::Metainfo(s) => "metainfo: "@ + s@,
            Error::Tracker(s) => "tracker: "@ + s@,
            Error::Peer(s) => "peer: "@ + s@,
            Error::PieceHash(index) => "piece hash mismatch at piece "@ + text::ascii_chars(
                text::digits(index as nat),
            ),
            Error::Io(s) => "io: "@ + s@,
        }
    }

    /// The error as text.
    pub fn to_string(&self) -> (out: String)
        ensures
            out@ == self.text(),
    {
        match self {
            Error::Bencode(s) => joined("bencode: ", s.as_str()),
            Error::Metainfo(s) => joined("metainfo: ", s.as_str()),
            Error::Tracker(s) => joined("tracker: ", s.as_str()),
            Error::Peer(s) => joined("peer: ", s.as_str()),
            Error::PieceHash(index) => {
                let number = number_text(*index as u64);
                joined("piece hash mismatch at piece ", number.as_str())
            },
            Error::Io(s) => joined("io: ", s.as_str()),
        }
    }
}

/// Errors say where they come from.
pub proof fn law_error_texts(e: Error)
    ensures
        e matches Error::Bencode(s) ==> e.text() == "bencode: "@ + s@,
        e matches Error::Metainfo(s) ==> e.text() == "metainfo: "@ + s@,
        e matches Error::Tracker(s) ==> e.text() == "tracker: "@ + s@,
        e matches Error::Peer(s) ==> e.text() == "peer: "@ + s@,
        e matches Error::PieceHash(index) ==> e.text() == "piece hash mismatch at piece "@
            + text::ascii_chars(text::digits(index as nat)),
        e matches Error::Io(s) ==> e.text() == "io: "@ + s@,
{
}

impl From<BencodeError> for Error {
    fn from(e: BencodeError) -> (out: Error)
        ensures
            out matches Error::Bencode(s) && s@ == "bencode error: "@ + e.0@,
    {
        Error::Bencode(e.to_string())
    }
}

impl vstd::std_specs::convert::FromSpecImpl<BencodeError> for Error {
    open spec fn obeys_from_spec() -> bool {
        false
    }

    open spec fn from_spec(e: BencodeError) -> Error {
        arbitrary()
    }
}

} // verus!
