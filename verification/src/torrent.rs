//! The typed view of a single-file torrent and its info-hash.

use vstd::prelude::*;
use vstd::string::StringSliceAdditionalSpecFns;
use vstd::utf8::{decode_utf8, encode_utf8, valid_utf8};
use crate::bencode::{BencodeByteString, BencodeDictionary, BencodeValue};
use vstd::slice::{slice_subrange, slice_to_vec};
use crate::digest::{hex_chars, hex_encode, sha1, sha1_digest};
use crate::grammar::{
    bytes_lt, encoding, lemma_bytes_lt_at, lookup, parse_value, Bencode, DecodeError,
};
use crate::peer::{ceil_div, div_round_up};
use crate::text::utf8_text;

verus! {

/// Why bytes are not the metainfo of a single-file torrent.
#[derive(Debug, Clone, Copy, PartialEq, Eq, Structural)]
pub enum TorrentError {
    /// The bytes are not bencode.
    Bencode(DecodeError),
    /// The bencode value is not a dictionary.
    NotADictionary,
    /// `announce` is missing, is not text, or is not an absolute URL.
    Announce,
    /// `info` is missing or is not a dictionary.
    Info,
    /// `length` is missing, is not an integer, or is negative.
    Length,
    /// `name` is missing or is not text.
    Name,
    /// `piece length` is missing, is not an integer, or is not positive.
    PieceLength,
    /// `pieces` is missing or is not a byte string.
    Pieces,
    /// The length of `pieces` is not a multiple of 20.
    PiecesLength,
}

/// What a torrent's metainfo says, as mathematics.
pub struct Metainfo {
    pub announce: Seq<char>,
    pub length: nat,
    pub name: Seq<char>,
    pub piece_length: nat,
    pub pieces: Seq<u8>,
}

/// The `info` part of a torrent's metainfo.
#[derive(Debug)]
pub struct TorrentInfo {
    pub length: usize,
    pub name: String,
    pub piece_length: usize,
    pub pieces: Vec<u8>,
}

/// The metainfo of a single-file torrent.
#[derive(Debug)]
pub struct Torrent {
    pub announce: String,
    pub info: TorrentInfo,
}

impl View for Torrent {
    type V = Metainfo;

    open spec fn view(&self) -> Metainfo {
        Metainfo {
            announce: self.announce@,
            length: self.info.length as nat,
            name: self.info.name@,
            piece_length: self.info.piece_length as nat,
            pieces: self.info.pieces@,
        }
    }
}

/// The absolute URL that the `url` crate reads from `text`, in the form in
/// which it writes a URL, if the text is one.
pub uninterp spec fn url_parse(text: Seq<char>) -> Option<Seq<char>>;

/// `reqwest::Url::parse`, and the URL's serialization: a function of `text`
/// alone.
#[verifier::external_body]
pub(crate) fn parse_url(text: &str) -> (r: Option<String>)
    ensures
        match r {
            Some(url) => url_parse(text@) == Some(url@),
            None => url_parse(text@) is None,
        },
{
    reqwest::Url::parse(text).ok().map(String::from)
}

/// The text of the byte string that `name` is bound to in `d`.
pub open spec fn text_field(d: Seq<(Seq<u8>, Bencode)>, name: &str) -> Option<Seq<char>> {
    match lookup(d, name.spec_bytes()) {
        Some(Bencode::Bytes(b)) => if valid_utf8(b) {
            Some(decode_utf8(b))
        } else {
            None
        },
        _ => None,
    }
}

/// The integer that `name` is bound to in `d`, when it is at least `least`
/// and fits in a `usize`.
pub open spec fn size_field(d: Seq<(Seq<u8>, Bencode)>, name: &str, least: int) -> Option<nat> {
    match lookup(d, name.spec_bytes()) {
        Some(Bencode::Int(n)) => if least <= n <= usize::MAX {
            Some(n as nat)
        } else {
            None
        },
        _ => None,
    }
}

/// The metainfo that the dictionary `top` holds, where `announce` is the
/// absolute URL read from its `announce` field, if there is one.
pub open spec fn metainfo_of(top: Seq<(Seq<u8>, Bencode)>, announce: Option<Seq<char>>) -> Result<
    Metainfo,
    TorrentError,
> {
    match announce {
        None => Err(TorrentError::Announce),
        Some(url) => match lookup(top, "info".spec_bytes()) {
            Some(Bencode::Dict(info)) => match size_field(info, "length", 0) {
                None => Err(TorrentError::Length),
                Some(length) => match text_field(info, "name") {
                    None => Err(TorrentError::Name),
                    Some(name) => match size_field(info, "piece length", 1) {
                        None => Err(TorrentError::PieceLength),
                        Some(piece_length) => match lookup(info, "pieces".spec_bytes()) {
                            Some(Bencode::Bytes(pieces)) => if pieces.len() % 20 == 0 {
                                Ok(
                                    Metainfo {
                                        announce: url,
                                        length,
                                        name,
                                        piece_length,
                                        pieces,
                                    },
                                )
                            } else {
                                Err(TorrentError::PiecesLength)
                            },
                            _ => Err(TorrentError::Pieces),
                        },
                    },
                },
            },
            _ => Err(TorrentError::Info),
        },
    }
}

/// The metainfo that the bytes `input` hold: they are read as bencode, what
/// follows the first value is ignored, and the `announce` text is read as a
/// URL.
pub open spec fn metainfo(input: Seq<u8>) -> Result<Metainfo, TorrentError> {
    match parse_value(input) {
        Err(e) => Err(TorrentError::Bencode(e)),
        Ok((Bencode::Dict(top), _)) => metainfo_of(
            top,
            match text_field(top, "announce") {
                Some(text) => url_parse(text),
                None => None,
            },
        ),
        Ok(_) => Err(TorrentError::NotADictionary),
    }
}

/// Whether `r` is the torrent, or the error, that `m` says.
pub open spec fn is_metainfo(r: Result<Torrent, TorrentError>, m: Result<Metainfo, TorrentError>) -> bool {
    match m {
        Ok(view) => r matches Ok(torrent) && torrent@ == view,
        Err(e) => r matches Err(f) && f == e,
    }
}

/// The text that `name` is bound to in `d`.
pub fn get_text<'a>(d: &'a BencodeDictionary<'a>, name: &str) -> (r: Option<&'a str>)
    ensures
        match r {
            Some(text) => text_field(d@, name) == Some(text@),
            None => text_field(d@, name) is None,
        },
{
    match d.get(name.as_bytes()) {
        Some(BencodeValue::ByteString(b)) => {
            let text = utf8_text(b.0);
            proof {
                if let Some(t) = text {
                    vstd::utf8::encode_utf8_decode_utf8(t@);
                }
            }
            text
        },
        _ => None,
    }
}

/// The size that `name` is bound to in `d`, when it is at least `least`.
pub fn get_size(d: &BencodeDictionary, name: &str, least: usize) -> (r: Option<usize>)
    ensures
        match r {
            Some(n) => size_field(d@, name, least as int) == Some(n as nat) && n <= i64::MAX,
            None => size_field(d@, name, least as int) is None,
        },
{
    match d.get(name.as_bytes()) {
        Some(BencodeValue::Integer(n)) => {
            let n: i64 = *n;
            if n < 0 || (n as u64) > (usize::MAX as u64) {
                None
            } else if (n as usize) < least {
                None
            } else {
                Some(n as usize)
            }
        },
        _ => None,
    }
}

/// The `info` dictionary of a torrent, rebuilt from its typed view.
pub open spec fn info_dictionary(m: Metainfo) -> Bencode {
    Bencode::Dict(
        seq![
            ("length".spec_bytes(), Bencode::Int(m.length as int)),
            ("name".spec_bytes(), Bencode::Bytes(encode_utf8(m.name))),
            ("piece length".spec_bytes(), Bencode::Int(m.piece_length as int)),
            ("pieces".spec_bytes(), Bencode::Bytes(m.pieces)),
        ],
    )
}

/// The info-hash of a torrent: the SHA-1 digest of the canonical bytes of its
/// `info` dictionary.
pub open spec fn info_hash_of(m: Metainfo) -> Seq<u8> {
    sha1_digest(encoding(info_dictionary(m)))
}

/// The number of pieces of a payload of `length` bytes in pieces of
/// `piece_length` bytes.
pub open spec fn piece_count_of(length: nat, piece_length: nat) -> nat {
    ceil_div(length as int, piece_length as int) as nat
}

/// The view of an optional text.
pub open spec fn text_view(text: Option<String>) -> Option<Seq<char>> {
    match text {
        Some(t) => Some(t@),
        None => None,
    }
}

/// The keys of the `info` dictionary ascend in the order `length`, `name`,
/// `piece length`, `pieces`.
pub proof fn lemma_info_keys_ascend()
    ensures
        bytes_lt("length".spec_bytes(), "name".spec_bytes()),
        bytes_lt("name".spec_bytes(), "piece length".spec_bytes()),
        bytes_lt("piece length".spec_bytes(), "pieces".spec_bytes()),
{
    reveal_strlit("length");
    reveal_strlit("name");
    reveal_strlit("piece length");
    reveal_strlit("pieces");
    vstd::string::is_ascii_spec_bytes("length");
    vstd::string::is_ascii_spec_bytes("name");
    vstd::string::is_ascii_spec_bytes("piece length");
    vstd::string::is_ascii_spec_bytes("pieces");
    lemma_bytes_lt_at("length".spec_bytes(), "name".spec_bytes(), 0);
    lemma_bytes_lt_at("name".spec_bytes(), "piece length".spec_bytes(), 0);
    lemma_bytes_lt_at("piece length".spec_bytes(), "pieces".spec_bytes(), 5);
}

impl TorrentInfo {
    /// Whether the sizes fit the integers of bencode, the piece length is
    /// positive, and `pieces` is a whole number of digests.
    pub open spec fn well_formed(&self) -> bool {
        &&& self.length <= i64::MAX
        &&& 0 < self.piece_length <= i64::MAX
        &&& self.pieces@.len() % 20 == 0
    }

    /// Whether this info is well formed.
    pub fn is_well_formed(&self) -> (ok: bool)
        ensures
            ok == self.well_formed(),
    {
        self.length as u64 <= 9223372036854775807u64 && 0 < self.piece_length
            && self.piece_length as u64 <= 9223372036854775807u64 && self.pieces.len() % 20 == 0
    }

    /// The number of pieces of the payload.
    pub fn piece_count(&self) -> (n: usize)
        requires
            self.piece_length > 0,
        ensures
            n == piece_count_of(self.length as nat, self.piece_length as nat),
    {
        div_round_up(self.length, self.piece_length)
    }

    /// The expected SHA-1 digest of each piece, in hexadecimal: slot `i` is
    /// made of the bytes `20 * i` up to `20 * i + 20` of `pieces`.
    pub fn piece_hashes(&self) -> (hashes: Vec<String>)
        ensures
            hashes@.len() == self.pieces@.len() / 20,
            forall|i: int|
                0 <= i < hashes@.len() ==> (#[trigger] hashes@[i])@ == hex_chars(
                    self.pieces@.subrange(20 * i, 20 * i + 20),
                ),
    {
        let mut output: Vec<String> = Vec::new();
        let total: usize = self.pieces.len();
        let count: usize = total / 20;
        let mut i: usize = 0;
        while i < count
            invariant
                total == self.pieces@.len(),
                count == total / 20,
                count * 20 <= total,
                i <= count,
                output@.len() == i,
                forall|j: int|
                    0 <= j < i ==> (#[trigger] output@[j])@ == hex_chars(
                        self.pieces@.subrange(20 * j, 20 * j + 20),
                    ),
            decreases count - i,
        {
            let piece_hash = slice_subrange(self.pieces.as_slice(), i * 20, (i + 1) * 20);
            output.push(hex_encode(piece_hash));
            i = i + 1;
        }
        output
    }
}

impl Torrent {
    /// Reads the metainfo of a torrent from the bytes of its file.
    pub fn from_bytes(input: &[u8]) -> (r: Result<Torrent, TorrentError>)
        ensures
            is_metainfo(r, metainfo(input@)),
            r matches Ok(torrent) ==> torrent.info.well_formed(),
    {
        let value = match BencodeValue::from_bytes(input) {
            Err(e) => {
                return Err(TorrentError::Bencode(e));
            },
            Ok((_, value)) => value,
        };
        match &value {
            BencodeValue::Dictionary(top) => {
                let announce = match get_text(top, "announce") {
                    Some(text) => parse_url(text),
                    None => None,
                };
                Torrent::from_fields(top, announce)
            },
            _ => Err(TorrentError::NotADictionary),
        }
    }

    /// The metainfo that the dictionary `top` holds, where `announce` is the
    /// absolute URL read from its `announce` field, if there is one.
    pub fn from_fields(top: &BencodeDictionary, announce: Option<String>) -> (r: Result<
        Torrent,
        TorrentError,
    >)
        ensures
            is_metainfo(r, metainfo_of(top@, text_view(announce))),
            r matches Ok(torrent) ==> torrent.info.well_formed(),
    {
        let announce = match announce {
            None => {
                return Err(TorrentError::Announce);
            },
            Some(url) => url,
        };
        let info = match top.get("info".as_bytes()) {
            Some(BencodeValue::Dictionary(info)) => info,
            _ => {
                return Err(TorrentError::Info);
            },
        };
        let length = match get_size(info, "length", 0) {
            None => {
                return Err(TorrentError::Length);
            },
            Some(n) => n,
        };
        let name = match get_text(info, "name") {
            None => {
                return Err(TorrentError::Name);
            },
            Some(text) => text.to_owned(),
        };
        let piece_length = match get_size(info, "piece length", 1) {
            None => {
                return Err(TorrentError::PieceLength);
            },
            Some(n) => n,
        };
        let pieces = match info.get("pieces".as_bytes()) {
            Some(BencodeValue::ByteString(b)) => slice_to_vec(b.0),
            _ => {
                return Err(TorrentError::Pieces);
            },
        };
        if pieces.len() % 20 != 0 {
            return Err(TorrentError::PiecesLength);
        }
        Ok(Torrent { announce, info: TorrentInfo { length, name, piece_length, pieces } })
    }

    /// The info-hash of this torrent in hexadecimal.
    pub fn info_hash(&self) -> (text: String)
        requires
            self.info.length <= i64::MAX,
            self.info.piece_length <= i64::MAX,
        ensures
            text@ == hex_chars(info_hash_of(self@)),
            info_hash_of(self@).len() == 20,
    {
        let mut entries = BencodeDictionary::new();
        entries.insert(
            BencodeByteString("length".as_bytes()),
            BencodeValue::Integer(self.info.length as i64),
        );
        entries.insert(
            BencodeByteString("name".as_bytes()),
            BencodeValue::ByteString(BencodeByteString(self.info.name.as_str().as_bytes())),
        );
        entries.insert(
            BencodeByteString("piece length".as_bytes()),
            BencodeValue::Integer(self.info.piece_length as i64),
        );
        entries.insert(
            BencodeByteString("pieces".as_bytes()),
            BencodeValue::ByteString(BencodeByteString(self.info.pieces.as_slice())),
        );
        proof {
            lemma_info_keys_ascend();
            assert(entries@ =~= info_dictionary(self@)->Dict_0);
        }
        let info_bencode = BencodeValue::Dictionary(entries);
        let digest = sha1(info_bencode.to_bytes().as_slice());
        hex_encode(&digest)
    }
}

/// The info-hash in hexadecimal of the torrent whose file holds the bytes
/// `input`, if they are the metainfo of one.
pub open spec fn info_hash_of_file(input: Seq<u8>) -> Option<Seq<char>> {
    match metainfo(input) {
        Ok(m) => Some(hex_chars(info_hash_of(m))),
        Err(_) => None,
    }
}

/// Two files with the same bytes have the same info-hash.
pub proof fn lemma_info_hash_stable(first: Seq<u8>, second: Seq<u8>)
    requires
        first == second,
    ensures
        info_hash_of_file(first) == info_hash_of_file(second),
{
}

} // verus!
