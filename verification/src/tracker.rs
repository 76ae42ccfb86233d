//! The tracker announce: the request URL and the compact peer list of the
//! response.

use vstd::prelude::*;
use vstd::string::{StrSliceExecFns, StringExecFns, StringSliceAdditionalSpecFns};
use crate::bencode::BencodeValue;
use crate::decimal::{decimal_string, decimal_text};
use crate::digest::hex_chars;
use crate::grammar::{lookup, parse_value, Bencode, DecodeError};
use crate::torrent::{info_hash_of, Torrent};

verus! {

/// The port on which this client listens.
pub const PORT: u16 = 6881;

/// The identifier that this client announces, 20 ASCII bytes.
pub const PEER_ID: &'static str = "27454831420650771739";

/// Why a tracker announce gave no peers.
#[derive(Debug, Clone, Copy, PartialEq, Eq, Structural)]
pub enum TrackerError {
    /// The form encoder refused the query parameters.
    Query,
    /// The response body is not bencode.
    Bencode(DecodeError),
    /// The response is not a dictionary, or its `peers` is not a byte string.
    InvalidResponse,
    /// The response holds a `failure reason`.
    Failure,
    /// The response holds no `peers`.
    NoPeers,
    /// The length of `peers` is not a multiple of 6.
    InvalidPeers,
}

/// The address of a peer: an IPv4 address and a TCP port.
#[derive(Debug, Clone, Copy, PartialEq, Eq)]
pub struct PeerAddr {
    pub ip: [u8; 4],
    pub port: u16,
}

/// The parameters of an announce, but for the info-hash.
#[derive(Debug)]
pub struct Request {
    pub peer_id: String,
    pub port: u16,
    pub uploaded: usize,
    pub downloaded: usize,
    pub left: usize,
    pub compact: u8,
}

/// The names and values of the parameters of an announce, in the order in
/// which they are sent; the numbers are written in decimal.
pub open spec fn query_pairs(
    peer_id: Seq<char>,
    port: nat,
    uploaded: nat,
    downloaded: nat,
    left: nat,
    compact: nat,
) -> Seq<(Seq<char>, Seq<char>)> {
    seq![
        ("peer_id"@, peer_id),
        ("port"@, decimal_text(port)),
        ("uploaded"@, decimal_text(uploaded)),
        ("downloaded"@, decimal_text(downloaded)),
        ("left"@, decimal_text(left)),
        ("compact"@, decimal_text(compact)),
    ]
}

impl Request {
    /// The names and values of the parameters of this request.
    pub open spec fn query(&self) -> Seq<(Seq<char>, Seq<char>)> {
        query_pairs(
            self.peer_id@,
            self.port as nat,
            self.uploaded as nat,
            self.downloaded as nat,
            self.left as nat,
            self.compact as nat,
        )
    }
}

/// The texts that the pairs `pairs` hold.
pub open spec fn pairs_view(pairs: Seq<(String, String)>) -> Seq<(Seq<char>, Seq<char>)> {
    Seq::new(pairs.len(), |i: int| (pairs[i].0@, pairs[i].1@))
}

/// The `application/x-www-form-urlencoded` text of `pairs`, as the
/// `serde_urlencoded` crate writes it.
pub uninterp spec fn form_urlencoded(pairs: Seq<(Seq<char>, Seq<char>)>) -> Seq<char>;

/// The error of `serde_urlencoded::to_string`.
#[verifier::external_type_specification]
#[verifier::external_body]
pub struct ExUrlencodedError(serde_urlencoded::ser::Error);

/// `serde_urlencoded::to_string` on a sequence of pairs of text. It
/// succeeds on every such sequence: the serializer takes a sequence of any
/// length, a tuple of two elements as a pair, and text as a key and as a
/// value, and fails on none of these. The text is a function of the pairs
/// alone.
#[verifier::external_body]
pub(crate) fn form_urlencode(pairs: &Vec<(String, String)>) -> (r: Result<
    String,
    serde_urlencoded::ser::Error,
>)
    ensures
        r is Ok,
        r matches Ok(text) ==> text@ == form_urlencoded(pairs_view(pairs@)),
{
    serde_urlencoded::to_string(pairs)
}

/// The hexadecimal digits `hex` with a `%` before each pair of them.
pub open spec fn percent_encoded(hex: Seq<char>) -> Seq<char> {
    Seq::new(
        hex.len() / 2 * 3,
        |i: int|
            if i % 3 == 0 {
                '%'
            } else {
                hex[i / 3 * 2 + i % 3 - 1]
            },
    )
}

/// The URL of an announce: the tracker's URL, the info-hash with each of its
/// bytes percent-encoded, and the other parameters.
pub open spec fn announce_url_of(announce: Seq<char>, info_hash: Seq<char>, query: Seq<char>) -> Seq<
    char,
> {
    announce + "?info_hash="@ + percent_encoded(info_hash) + "&"@ + query
}

impl Request {
    /// The parameters of the first announce for a payload of `size` bytes.
    pub fn new(size: usize) -> (request: Self)
        ensures
            request.peer_id@ == PEER_ID@,
            request.port == PORT,
            request.uploaded == 0,
            request.downloaded == 0,
            request.left == size,
            request.compact == 1,
    {
        Request {
            peer_id: PEER_ID.to_owned(),
            port: PORT,
            uploaded: 0,
            downloaded: 0,
            left: size,
            compact: 1,
        }
    }

    /// The names and values of the parameters, in the order in which they
    /// are sent.
    pub fn pairs(&self) -> (pairs: Vec<(String, String)>)
        ensures
            pairs_view(pairs@) == self.query(),
    {
        let mut pairs: Vec<(String, String)> = Vec::new();
        pairs.push(("peer_id".to_owned(), self.peer_id.clone()));
        pairs.push(("port".to_owned(), decimal_string(self.port as u64)));
        pairs.push(("uploaded".to_owned(), decimal_string(self.uploaded as u64)));
        pairs.push(("downloaded".to_owned(), decimal_string(self.downloaded as u64)));
        pairs.push(("left".to_owned(), decimal_string(self.left as u64)));
        pairs.push(("compact".to_owned(), decimal_string(self.compact as u64)));
        assert(pairs_view(pairs@) =~= self.query());
        pairs
    }
}

/// Puts the URL of an announce together from the tracker's URL, the
/// info-hash in hexadecimal and the encoded parameters.
pub fn tracker_url(announce: &str, info_hash: &str, query: &str) -> (url: String)
    ensures
        url@ == announce_url_of(announce@, info_hash@, query@),
{
    let mut url = String::from_str(announce);
    url.append("?info_hash=");
    let ghost head = url@;
    let total: usize = info_hash.unicode_len();
    let count: usize = total / 2;
    let mut i: usize = 0;
    while i < count
        invariant
            total == info_hash@.len(),
            count == total / 2,
            2 * count <= total,
            i <= count,
            url@.len() == head.len() + 3 * i,
            url@.subrange(0, head.len() as int) == head,
            forall|j: int|
                0 <= j < 3 * i ==> #[trigger] url@[head.len() + j] == percent_encoded(
                    info_hash@,
                )[j],
        decreases count - i,
    {
        let ghost before = url@;
        let pair = info_hash.substring_char(2 * i, 2 * i + 2);
        url.append("%");
        url.append(pair);
        proof {
            reveal_strlit("%");
            assert(url@ =~= before + seq!['%'] + pair@);
            assert(url@.subrange(0, head.len() as int) =~= before.subrange(0, head.len() as int));
            assert forall|j: int| 0 <= j < 3 * (i + 1) implies #[trigger] url@[head.len() + j]
                == percent_encoded(info_hash@)[j] by {
                if j < 3 * i {
                    assert(url@[head.len() + j] == before[head.len() + j]);
                } else {
                    let k = j - 3 * i;
                    assert(j / 3 == i && j % 3 == k);
                    if k > 0 {
                        assert(url@[head.len() + j] == pair@[k - 1]);
                    }
                }
            }
        }
        i = i + 1;
    }
    let ghost middle = url@;
    url.append("&");
    url.append(query);
    proof {
        let tail = percent_encoded(info_hash@);
        assert(middle.len() == head.len() + tail.len());
        assert forall|j: int| 0 <= j < middle.len() implies middle[j] == (head + tail)[j] by {
            if j < head.len() {
                assert(middle.subrange(0, head.len() as int)[j] == middle[j]);
            } else {
                assert(middle[head.len() + (j - head.len())] == tail[j - head.len()]);
            }
        }
        assert(middle =~= head + tail);
        assert(url@ =~= announce_url_of(announce@, info_hash@, query@));
    }
    url
}

/// The URL of the first announce for `torrent`: the tracker's URL, the
/// info-hash, and the parameters of the first request in the form
/// encoder's text. The parameters are pairs of text, on which the encoder
/// does not fail, so the URL is always given.
pub fn announce_request(torrent: &Torrent) -> (r: Result<String, TrackerError>)
    requires
        torrent.info.length <= i64::MAX,
        torrent.info.piece_length <= i64::MAX,
    ensures
        r matches Ok(url) && url@ == announce_url_of(
            torrent.announce@,
            hex_chars(info_hash_of(torrent@)),
            form_urlencoded(
                query_pairs(PEER_ID@, PORT as nat, 0, 0, torrent.info.length as nat, 1),
            ),
        ),
{
    let request_params = Request::new(torrent.info.length);
    let info_hash = torrent.info_hash();
    let pairs = request_params.pairs();
    match form_urlencode(&pairs) {
        Ok(query) => Ok(tracker_url(torrent.announce.as_str(), info_hash.as_str(), query.as_str())),
        Err(_) => Err(TrackerError::Query),
    }
}

/// The peer at position `i` of a compact peer list: four bytes of address,
/// then the port, high byte first.
pub open spec fn peer_at(list: Seq<u8>, i: int) -> PeerAddr {
    PeerAddr {
        ip: [list[6 * i], list[6 * i + 1], list[6 * i + 2], list[6 * i + 3]],
        port: (list[6 * i + 4] as int * 256 + list[6 * i + 5] as int) as u16,
    }
}

/// The peers of a compact peer list.
pub open spec fn peers_of(list: Seq<u8>) -> Result<Seq<PeerAddr>, TrackerError> {
    if list.len() % 6 == 0 {
        Ok(Seq::new(list.len() / 6, |i: int| peer_at(list, i)))
    } else {
        Err(TrackerError::InvalidPeers)
    }
}

/// The peers that the body of a tracker's response names.
pub open spec fn peers_of_response(body: Seq<u8>) -> Result<Seq<PeerAddr>, TrackerError> {
    match parse_value(body) {
        Err(e) => Err(TrackerError::Bencode(e)),
        Ok((Bencode::Dict(d), _)) => if lookup(d, "failure reason".spec_bytes()) is Some {
            Err(TrackerError::Failure)
        } else {
            match lookup(d, "peers".spec_bytes()) {
                None => Err(TrackerError::NoPeers),
                Some(Bencode::Bytes(list)) => peers_of(list),
                Some(_) => Err(TrackerError::InvalidResponse),
            }
        },
        Ok(_) => Err(TrackerError::InvalidResponse),
    }
}

/// Whether `r` is the peers, or the error, that `m` says.
pub open spec fn is_peers(r: Result<Vec<PeerAddr>, TrackerError>, m: Result<
    Seq<PeerAddr>,
    TrackerError,
>) -> bool {
    match m {
        Ok(peers) => r matches Ok(list) && list@ == peers,
        Err(e) => r matches Err(f) && f == e,
    }
}

/// Reads a compact peer list: six bytes for each peer.
pub fn parse_peers(input: &[u8]) -> (r: Result<Vec<PeerAddr>, TrackerError>)
    ensures
        is_peers(r, peers_of(input@)),
{
    let total: usize = input.len();
    if total % 6 != 0 {
        return Err(TrackerError::InvalidPeers);
    }
    let count: usize = total / 6;
    let mut peers: Vec<PeerAddr> = Vec::new();
    let mut i: usize = 0;
    while i < count
        invariant
            total == input@.len(),
            count == total / 6,
            6 * count == total,
            i <= count,
            peers@.len() == i,
            forall|j: int| 0 <= j < i ==> #[trigger] peers@[j] == peer_at(input@, j),
        decreases count - i,
    {
        let at: usize = 6 * i;
        let ip = [input[at], input[at + 1], input[at + 2], input[at + 3]];
        let port: u16 = (input[at + 4] as u16) * 256 + (input[at + 5] as u16);
        proof {
            assert(ip@ =~= peer_at(input@, i as int).ip@);
        }
        peers.push(PeerAddr { ip, port });
        i = i + 1;
    }
    assert(peers@ =~= peers_of(input@)->Ok_0);
    Ok(peers)
}

/// Reads the peers from the body of a tracker's response.
pub fn peers_from_response(body: &[u8]) -> (r: Result<Vec<PeerAddr>, TrackerError>)
    ensures
        is_peers(r, peers_of_response(body@)),
{
    let response_data = match BencodeValue::from_bytes(body) {
        Err(e) => {
            return Err(TrackerError::Bencode(e));
        },
        Ok((_, value)) => value,
    };
    match &response_data {
        BencodeValue::Dictionary(d) => {
            if d.get("failure reason".as_bytes()).is_some() {
                return Err(TrackerError::Failure);
            }
            match d.get("peers".as_bytes()) {
                None => Err(TrackerError::NoPeers),
                Some(BencodeValue::ByteString(list)) => parse_peers(list.0),
                Some(_) => Err(TrackerError::InvalidResponse),
            }
        },
        _ => Err(TrackerError::InvalidResponse),
    }
}

} // verus!
