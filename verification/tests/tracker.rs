use bittorrent::bencode::BencodeValue;
use bittorrent::grammar::DecodeError;
use bittorrent::torrent::{Torrent, TorrentInfo};
use bittorrent::tracker::{
    announce_request, parse_peers, peers_from_response, tracker_url, PeerAddr, Request,
    TrackerError, PEER_ID, PORT,
};

#[test]
fn request_new_has_the_fixed_fields() {
    let request = Request::new(92063);
    assert_eq!(request.peer_id, "27454831420650771739");
    assert_eq!(request.peer_id, PEER_ID);
    assert_eq!(request.port, 6881);
    assert_eq!(request.port, PORT);
    assert_eq!(request.uploaded, 0);
    assert_eq!(request.downloaded, 0);
    assert_eq!(request.left, 92063);
    assert_eq!(request.compact, 1);
}

#[test]
fn request_pairs_are_in_order_and_decimal() {
    let pairs = Request::new(1234567890).pairs();
    let expected: Vec<(String, String)> = vec![
        ("peer_id".to_string(), "27454831420650771739".to_string()),
        ("port".to_string(), "6881".to_string()),
        ("uploaded".to_string(), "0".to_string()),
        ("downloaded".to_string(), "0".to_string()),
        ("left".to_string(), "1234567890".to_string()),
        ("compact".to_string(), "1".to_string()),
    ];
    assert_eq!(pairs, expected);
}

#[test]
fn tracker_url_percent_encodes_each_byte() {
    let url = tracker_url("http://a/b", "00ff1a", "left=1");
    assert_eq!(url, "http://a/b?info_hash=%00%ff%1a&left=1");
}

#[test]
fn announce_request_is_the_whole_url() {
    let torrent = Torrent {
        announce: String::from("http://tracker.test/announce"),
        info: TorrentInfo {
            length: 12,
            name: String::from("foo"),
            piece_length: 4,
            pieces: (0u8..20).collect(),
        },
    };
    let hash = torrent.info_hash();
    let mut encoded = String::new();
    for i in 0..20 {
        encoded.push('%');
        encoded.push_str(&hash[2 * i..2 * i + 2]);
    }
    let url = announce_request(&torrent).unwrap();
    assert_eq!(
        url,
        format!(
            "http://tracker.test/announce?info_hash={}&peer_id=27454831420650771739&port=6881&uploaded=0&downloaded=0&left=12&compact=1",
            encoded
        )
    );
}

#[test]
fn compact_peers_are_read() {
    let peers = parse_peers(b"\x01\x02\x03\x04\x1A\xE1\x0A\x00\x00\x01\x1A\xE9").unwrap();
    assert_eq!(
        peers,
        vec![
            PeerAddr { ip: [1, 2, 3, 4], port: 6881 },
            PeerAddr { ip: [10, 0, 0, 1], port: 6889 },
        ]
    );
    assert_eq!(parse_peers(b"").unwrap(), Vec::new());
    assert_eq!(parse_peers(b"\x01\x02\x03\x04\x1A").unwrap_err(), TrackerError::InvalidPeers);
    assert_eq!(
        parse_peers(b"\xff\xff\xff\xff\xff\xff").unwrap(),
        vec![PeerAddr { ip: [255, 255, 255, 255], port: 65535 }]
    );
}

#[test]
fn response_peers_are_read() {
    let body = b"d8:intervali60e5:peers6:\x7f\x00\x00\x01\x00\x50e";
    assert!(BencodeValue::from_bytes(body).is_ok());
    assert_eq!(
        peers_from_response(body).unwrap(),
        vec![PeerAddr { ip: [127, 0, 0, 1], port: 80 }]
    );
}

#[test]
fn response_errors_are_told_apart() {
    assert_eq!(
        peers_from_response(b"").unwrap_err(),
        TrackerError::Bencode(DecodeError::EmptyInput)
    );
    assert_eq!(peers_from_response(b"i1e").unwrap_err(), TrackerError::InvalidResponse);
    assert_eq!(peers_from_response(b"de").unwrap_err(), TrackerError::NoPeers);
    assert_eq!(
        peers_from_response(b"d5:peersi1ee").unwrap_err(),
        TrackerError::InvalidResponse
    );
    assert_eq!(
        peers_from_response(b"d5:peers5:abcdee").unwrap_err(),
        TrackerError::InvalidPeers
    );
    assert_eq!(
        peers_from_response(b"d14:failure reason4:nope5:peers0:e").unwrap_err(),
        TrackerError::Failure
    );
}

#[test]
fn announce_request_takes_any_text() {
    let torrent = Torrent {
        announce: String::from("http://t/a b?x=&y"),
        info: TorrentInfo {
            length: 0,
            name: String::from("\u{e9} &="),
            piece_length: 1,
            pieces: Vec::new(),
        },
    };
    let url = announce_request(&torrent).unwrap();
    assert!(url.starts_with("http://t/a b?x=&y?info_hash=%"));
    assert!(url.ends_with(
        "&peer_id=27454831420650771739&port=6881&uploaded=0&downloaded=0&left=0&compact=1"
    ));
    assert_eq!(Request::new(usize::MAX).pairs()[4].1, usize::MAX.to_string());
}
