use bittorrent::torrent::{Torrent, TorrentInfo};
use bittorrent::wire::{
    decode_frame, frame_length, Handshake, HandshakeError, MessageError, PeerMessage,
};
use sha1::{Digest, Sha1};

fn torrent() -> Torrent {
    Torrent {
        announce: String::from("http://a/b"),
        info: TorrentInfo {
            length: 12,
            name: String::from("foo"),
            piece_length: 4,
            pieces: (0u8..60).collect(),
        },
    }
}

#[test]
fn handshake_frame_layout() {
    let handshake = Handshake { info_hash: [7; 20], peer_id: [9; 20] };
    let bytes = handshake.encode();
    assert_eq!(bytes.len(), 68);
    assert_eq!(bytes[0], 0x13);
    assert_eq!(&bytes[1..20], b"BitTorrent protocol");
    assert_eq!(&bytes[20..28], &[0u8; 8]);
    assert_eq!(&bytes[28..48], &[7u8; 20]);
    assert_eq!(&bytes[48..68], &[9u8; 20]);
}

#[test]
fn handshake_new_carries_the_raw_info_hash() {
    let torrent = torrent();
    let handshake = Handshake::new(&torrent).unwrap();
    let mut hasher = Sha1::new();
    hasher.update(b"d6:lengthi12e4:name3:foo12:piece lengthi4e6:pieces60:");
    hasher.update((0u8..60).collect::<Vec<u8>>());
    hasher.update(b"e");
    let digest: [u8; 20] = hasher.finalize().into();
    assert_eq!(handshake.info_hash, digest);
    assert_eq!(&handshake.peer_id, b"27454831420650771739");
    assert_eq!(hex::encode(handshake.info_hash), torrent.info_hash());
}

#[test]
fn handshake_reply_gives_the_peer_id() {
    let mut reply = vec![19u8];
    reply.extend(b"BitTorrent protocol");
    reply.extend([0u8; 8]);
    reply.extend([1u8; 20]);
    reply.extend(b"-XX0001-abcdefghijkl");
    let handshake = Handshake::decode(&reply).unwrap();
    assert_eq!(handshake.info_hash, [1u8; 20]);
    assert_eq!(&handshake.peer_id, b"-XX0001-abcdefghijkl");
    // what was sent reads back
    let sent = Handshake { info_hash: [3; 20], peer_id: [4; 20] }.encode();
    let back = Handshake::decode(&sent).unwrap();
    assert_eq!(back.info_hash, [3; 20]);
    assert_eq!(back.peer_id, [4; 20]);
}

#[test]
fn handshake_errors() {
    assert_eq!(Handshake::decode(&[19u8; 67]).unwrap_err(), HandshakeError::Incomplete);
    assert_eq!(Handshake::decode(b"").unwrap_err(), HandshakeError::Incomplete);
    let mut frame = Handshake { info_hash: [3; 20], peer_id: [4; 20] }.encode();
    frame[0] = 18;
    assert_eq!(Handshake::decode(&frame).unwrap_err(), HandshakeError::UnsupportedProtocol);
    frame[0] = 19;
    frame[19] = b'L';
    assert_eq!(Handshake::decode(&frame).unwrap_err(), HandshakeError::UnsupportedProtocol);
}

#[test]
fn message_frames() {
    assert_eq!(PeerMessage::Choke.encode().unwrap(), vec![0, 0, 0, 1, 0]);
    assert_eq!(PeerMessage::Unchoke.encode().unwrap(), vec![0, 0, 0, 1, 1]);
    assert_eq!(PeerMessage::Interested.encode().unwrap(), vec![0, 0, 0, 1, 2]);
    assert_eq!(PeerMessage::NotInterested.encode().unwrap(), vec![0, 0, 0, 1, 3]);
    assert_eq!(
        PeerMessage::Have(0x01020304).encode().unwrap(),
        vec![0, 0, 0, 5, 4, 1, 2, 3, 4]
    );
    assert_eq!(
        PeerMessage::Bitfield(vec![0xff, 0x80]).encode().unwrap(),
        vec![0, 0, 0, 3, 5, 0xff, 0x80]
    );
    assert_eq!(
        PeerMessage::Request { index: 1, begin: 16384, length: 16384 }.encode().unwrap(),
        vec![0, 0, 0, 13, 6, 0, 0, 0, 1, 0, 0, 0x40, 0, 0, 0, 0x40, 0]
    );
    assert_eq!(
        PeerMessage::Piece { index: 2, begin: 3, block: vec![9, 8] }.encode().unwrap(),
        vec![0, 0, 0, 11, 7, 0, 0, 0, 2, 0, 0, 0, 3, 9, 8]
    );
    assert_eq!(
        PeerMessage::Cancel { index: 0xffffffff, begin: 0, length: 1 }.encode().unwrap(),
        vec![0, 0, 0, 13, 8, 0xff, 0xff, 0xff, 0xff, 0, 0, 0, 0, 0, 0, 0, 1]
    );
}

#[test]
fn message_tags() {
    assert_eq!(PeerMessage::Choke.tag(), 0);
    assert_eq!(PeerMessage::Unchoke.tag(), 1);
    assert_eq!(PeerMessage::Interested.tag(), 2);
    assert_eq!(PeerMessage::NotInterested.tag(), 3);
    assert_eq!(PeerMessage::Have(1).tag(), 4);
    assert_eq!(PeerMessage::Bitfield(vec![]).tag(), 5);
    assert_eq!(PeerMessage::Request { index: 0, begin: 0, length: 0 }.tag(), 6);
    assert_eq!(PeerMessage::Piece { index: 0, begin: 0, block: vec![] }.tag(), 7);
    assert_eq!(PeerMessage::Cancel { index: 0, begin: 0, length: 0 }.tag(), 8);
}

#[test]
fn messages_read_back() {
    let messages = vec![
        PeerMessage::Choke,
        PeerMessage::Unchoke,
        PeerMessage::Interested,
        PeerMessage::NotInterested,
        PeerMessage::Have(77),
        PeerMessage::Bitfield(vec![1, 2, 3]),
        PeerMessage::Bitfield(vec![]),
        PeerMessage::Request { index: 5, begin: 32768, length: 1 },
        PeerMessage::Piece { index: 5, begin: 16384, block: vec![0xaa; 100] },
        PeerMessage::Piece { index: 5, begin: 16384, block: vec![] },
        PeerMessage::Cancel { index: 4000000000, begin: 7, length: 16384 },
    ];
    for message in messages {
        let frame = message.encode().unwrap();
        let prefix = [frame[0], frame[1], frame[2], frame[3]];
        assert_eq!(frame_length(&prefix) as usize, frame.len() - 4);
        assert_eq!(PeerMessage::decode(&frame[4..]).unwrap(), message);
        assert_eq!(decode_frame(&frame[4..]).unwrap(), Some(message));
    }
}

#[test]
fn message_errors() {
    assert_eq!(PeerMessage::decode(b"").unwrap_err(), MessageError::Truncated);
    assert_eq!(PeerMessage::decode(&[9]).unwrap_err(), MessageError::UnknownTag);
    assert_eq!(PeerMessage::decode(&[255, 0, 0]).unwrap_err(), MessageError::UnknownTag);
    assert_eq!(PeerMessage::decode(&[4, 0, 0, 0]).unwrap_err(), MessageError::Truncated);
    assert_eq!(PeerMessage::decode(&[6; 12]).unwrap_err(), MessageError::Truncated);
    assert_eq!(PeerMessage::decode(&[7; 8]).unwrap_err(), MessageError::Truncated);
    assert_eq!(PeerMessage::decode(&[8; 12]).unwrap_err(), MessageError::Truncated);
    // a keep-alive frame holds no message
    assert_eq!(decode_frame(b"").unwrap(), None);
    assert_eq!(decode_frame(&[9]).unwrap_err(), MessageError::UnknownTag);
    assert_eq!(frame_length(&[0, 0, 0x40, 0x09]), 16393);
    assert_eq!(frame_length(&[0xff, 0xff, 0xff, 0xff]), u32::MAX);
}

#[test]
fn messages_for_a_reader() {
    assert_eq!(PeerMessage::Choke.describe(), "PeerMessage::Choke");
    assert_eq!(PeerMessage::Unchoke.describe(), "PeerMessage::Unchoke");
    assert_eq!(PeerMessage::Interested.describe(), "PeerMessage::Interested");
    assert_eq!(PeerMessage::NotInterested.describe(), "PeerMessage::NotInterested");
    assert_eq!(PeerMessage::Have(4294967295).describe(), "PeerMessage::Have(4294967295)");
    assert_eq!(
        PeerMessage::Bitfield(vec![0xff, 0, 5, 0x80]).describe(),
        "PeerMessage::Bitfield(11111111010110000000)"
    );
    assert_eq!(PeerMessage::Bitfield(vec![]).describe(), "PeerMessage::Bitfield()");
    assert_eq!(
        PeerMessage::Request { index: 1, begin: 16384, length: 10 }.describe(),
        "PeerMessage::Request { index: 1, begin: 16384, length: 10 }"
    );
    assert_eq!(
        PeerMessage::Piece { index: 1, begin: 0, block: vec![0; 300] }.describe(),
        "PeerMessage::Piece { index: 1, begin: 0, block.len(): 300 }"
    );
    assert_eq!(
        PeerMessage::Cancel { index: 0, begin: 0, length: 0 }.describe(),
        "PeerMessage::Cancel { index: 0, begin: 0, length: 0 }"
    );
}
