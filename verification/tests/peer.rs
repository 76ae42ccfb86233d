use bittorrent::peer::{
    assemble, div_round_up, Action, BlockState, PeerConnection, PeerConnectionState, PeerError,
    PieceDownload,
};
use bittorrent::torrent::{Torrent, TorrentInfo};
use bittorrent::wire::{Handshake, HandshakeError, PeerMessage};
use sha1::{Digest, Sha1};

fn digest(data: &[u8]) -> Vec<u8> {
    let mut hasher = Sha1::new();
    hasher.update(data);
    hasher.finalize().to_vec()
}

fn payload(length: usize) -> Vec<u8> {
    (0..length).map(|i| (i * 7 + i / 256) as u8).collect()
}

fn torrent(length: usize, piece_length: usize, data: &[u8]) -> Torrent {
    let mut pieces = Vec::new();
    for chunk in data.chunks(piece_length) {
        pieces.extend(digest(chunk));
    }
    Torrent {
        announce: String::from("http://a/b"),
        info: TorrentInfo { length, name: String::from("foo"), piece_length, pieces },
    }
}

fn ready(torrent: Torrent) -> PeerConnection {
    let mut connection = PeerConnection::new(torrent);
    connection.state = PeerConnectionState::ReadyToRequest;
    connection
}

fn request(index: u32, block: u32, length: u32) -> PeerMessage {
    PeerMessage::Request { index, begin: block * 16384, length }
}

#[test]
fn div_round_up_rounds_up() {
    assert_eq!(div_round_up(0, 16384), 0);
    assert_eq!(div_round_up(1, 16384), 1);
    assert_eq!(div_round_up(16384, 16384), 1);
    assert_eq!(div_round_up(16385, 16384), 2);
    assert_eq!(div_round_up(12, 4), 3);
    assert_eq!(div_round_up(usize::MAX, 1), usize::MAX);
    assert_eq!(div_round_up(usize::MAX, usize::MAX), 1);
    assert_eq!(div_round_up(usize::MAX, 2), usize::MAX / 2 + 1);
}

#[test]
fn connect_exchanges_handshakes() {
    let data = payload(10);
    let mut connection = PeerConnection::new(torrent(10, 4, &data));
    assert_eq!(connection.state, PeerConnectionState::Connected);
    assert_eq!(connection.peer_id, None);
    let sent = connection.send_handshake().unwrap();
    assert_eq!(sent.len(), 68);
    assert_eq!(sent[0], 0x13);
    assert_eq!(&sent[1..20], b"BitTorrent protocol");
    assert_eq!(&sent[20..28], &[0u8; 8]);
    assert_eq!(hex::encode(&sent[28..48]), connection.torrent.info_hash());
    assert_eq!(&sent[48..68], b"27454831420650771739");
    assert_eq!(connection.state, PeerConnectionState::WaitingForHandshake);

    let reply = Handshake { info_hash: [0; 20], peer_id: *b"-MOCK00-000000000001" }.encode();
    connection.receive_handshake(&reply).unwrap();
    assert_eq!(connection.peer_id, Some(*b"-MOCK00-000000000001"));
    assert_eq!(connection.state, PeerConnectionState::WaitingForBitfield);
}

#[test]
fn refused_handshake_changes_nothing() {
    let data = payload(10);
    let mut connection = PeerConnection::new(torrent(10, 4, &data));
    connection.send_handshake().unwrap();
    let short = [19u8; 10];
    assert_eq!(
        connection.receive_handshake(&short).unwrap_err(),
        PeerError::Handshake(HandshakeError::Incomplete)
    );
    assert_eq!(connection.state, PeerConnectionState::WaitingForHandshake);
    assert_eq!(connection.peer_id, None);
    let mut wrong = Handshake { info_hash: [0; 20], peer_id: [1; 20] }.encode();
    wrong[5] = b'x';
    assert_eq!(
        connection.receive_handshake(&wrong).unwrap_err(),
        PeerError::Handshake(HandshakeError::UnsupportedProtocol)
    );
    assert_eq!(connection.state, PeerConnectionState::WaitingForHandshake);
}

#[test]
fn handshake_needs_a_well_formed_torrent() {
    let mut bad = torrent(10, 4, &payload(10));
    bad.info.piece_length = 0;
    let mut connection = PeerConnection::new(bad);
    assert_eq!(connection.send_handshake().unwrap_err(), PeerError::InvalidTorrent);
    assert_eq!(connection.state, PeerConnectionState::Connected);
}

#[test]
fn last_piece_of_one_byte_has_one_block_of_one_byte() {
    let data = payload(1);
    let mut connection = ready(torrent(1, 16384 * 2, &data));
    let mut download = connection.start_piece(0).unwrap();
    assert_eq!(download.piece.len(), 1);
    assert_eq!(download.block_states, vec![BlockState::NotRequested]);
    let action = connection.proceed(&mut download).unwrap();
    assert_eq!(action, Action::Send(vec![PeerMessage::Request { index: 0, begin: 0, length: 1 }]));
    assert_eq!(download.block_states, vec![BlockState::Requested]);
}

#[test]
fn start_piece_errors() {
    let data = payload(10);
    let connection = PeerConnection::new(torrent(10, 4, &data));
    assert_eq!(connection.start_piece(0).err(), Some(PeerError::InvalidState));
    let mut connection = ready(torrent(10, 4, &data));
    assert_eq!(connection.start_piece(3).err(), Some(PeerError::InvalidPiece));
    assert!(connection.start_piece(2).is_ok());
    connection.state = PeerConnectionState::GettingPieces;
    assert_eq!(connection.start_piece(0).err(), Some(PeerError::InvalidState));
    connection.state = PeerConnectionState::WaitingForBitfield;
    assert!(connection.start_piece(0).is_ok());
    connection.state = PeerConnectionState::ReadyToExpressInterest;
    assert!(connection.start_piece(0).is_ok());
    // no digest for the piece
    let mut short = torrent(10, 4, &data);
    short.info.pieces.truncate(40);
    assert_eq!(ready(short).start_piece(2).err(), Some(PeerError::InvalidPiece));
    let mut bad = torrent(10, 4, &data);
    bad.info.pieces.push(0);
    assert_eq!(ready(bad).start_piece(0).err(), Some(PeerError::InvalidTorrent));
}

#[test]
fn piece_sizes_and_block_counts() {
    let data = payload(40000);
    let connection = ready(torrent(40000, 32768, &data));
    let first = connection.start_piece(0).unwrap();
    assert_eq!(first.piece.len(), 32768);
    assert_eq!(first.block_states.len(), 2);
    let last = connection.start_piece(1).unwrap();
    assert_eq!(last.piece.len(), 40000 - 32768);
    assert_eq!(last.block_states.len(), 1);
    assert_eq!(last.request(0), PeerMessage::Request { index: 1, begin: 0, length: 7232 });
}

#[test]
fn bitfield_interest_unchoke_then_requests() {
    let data = payload(20000);
    let mut connection = PeerConnection::new(torrent(20000, 20000, &data));
    connection.state = PeerConnectionState::WaitingForBitfield;
    let mut download = connection.start_piece(0).unwrap();
    assert_eq!(connection.proceed(&mut download).unwrap(), Action::Receive);
    // the bitfield comes once and its contents are ignored
    let action = connection.handle_message(&mut download, &PeerMessage::Bitfield(vec![0])).unwrap();
    assert_eq!(action, Action::Send(vec![PeerMessage::Interested]));
    assert_eq!(connection.state, PeerConnectionState::WaitingForUnchoke);
    assert_eq!(connection.proceed(&mut download).unwrap(), Action::Receive);
    // anything but unchoke is passed over
    assert_eq!(
        connection.handle_message(&mut download, &PeerMessage::Have(3)).unwrap(),
        Action::Receive
    );
    assert_eq!(connection.state, PeerConnectionState::WaitingForUnchoke);
    let action = connection.handle_message(&mut download, &PeerMessage::Unchoke).unwrap();
    assert_eq!(action, Action::Send(vec![request(0, 0, 16384), request(0, 1, 20000 - 16384)]));
    assert_eq!(connection.state, PeerConnectionState::GettingPieces);
    assert_eq!(connection.proceed(&mut download).unwrap(), Action::Receive);
}

#[test]
fn another_message_than_the_bitfield_is_an_error() {
    let data = payload(10);
    let mut connection = PeerConnection::new(torrent(10, 4, &data));
    connection.state = PeerConnectionState::WaitingForBitfield;
    let mut download = connection.start_piece(0).unwrap();
    assert_eq!(
        connection.handle_message(&mut download, &PeerMessage::Unchoke).unwrap_err(),
        PeerError::UnexpectedMessage
    );
    assert_eq!(connection.state, PeerConnectionState::WaitingForBitfield);
}

#[test]
fn express_interest_from_ready_state() {
    let data = payload(10);
    let mut connection = PeerConnection::new(torrent(10, 4, &data));
    connection.state = PeerConnectionState::ReadyToExpressInterest;
    let mut download = connection.start_piece(0).unwrap();
    assert_eq!(
        connection.proceed(&mut download).unwrap(),
        Action::Send(vec![PeerMessage::Interested])
    );
    assert_eq!(connection.state, PeerConnectionState::WaitingForUnchoke);
}

#[test]
fn steps_are_refused_before_the_handshake() {
    let data = payload(10);
    let mut connection = ready(torrent(10, 4, &data));
    let mut download = connection.start_piece(0).unwrap();
    connection.state = PeerConnectionState::Connected;
    assert_eq!(connection.proceed(&mut download).unwrap_err(), PeerError::InvalidState);
    assert_eq!(
        connection.handle_message(&mut download, &PeerMessage::Unchoke).unwrap_err(),
        PeerError::InvalidState
    );
    connection.state = PeerConnectionState::WaitingForHandshake;
    assert_eq!(connection.proceed(&mut download).unwrap_err(), PeerError::InvalidState);
    connection.state = PeerConnectionState::ReadyToRequest;
    assert_eq!(
        connection.handle_message(&mut download, &PeerMessage::Unchoke).unwrap_err(),
        PeerError::InvalidState
    );
}

fn block_of(data: &[u8], index: u32, block: usize) -> PeerMessage {
    let begin = block * 16384;
    let end = std::cmp::min(begin + 16384, data.len());
    PeerMessage::Piece { index, begin: begin as u32, block: data[begin..end].to_vec() }
}

#[test]
fn request_pipeline_of_twelve_blocks() {
    let size = 12 * 16384;
    let data = payload(size);
    let mut connection = ready(torrent(size, size, &data));
    let mut download = connection.start_piece(0).unwrap();
    assert_eq!(download.block_states.len(), 12);
    let action = connection.proceed(&mut download).unwrap();
    let opening: Vec<PeerMessage> = (0..5).map(|i| request(0, i, 16384)).collect();
    assert_eq!(action, Action::Send(opening));
    for i in 0..5 {
        let action = connection.handle_message(&mut download, &block_of(&data, 0, i)).unwrap();
        assert_eq!(action, Action::Send(vec![request(0, 5 + i as u32, 16384)]));
    }
    // after the fifth block: 0 to 4 are in, 5 to 9 are on the wire, 10 and 11 wait
    let mut expected = vec![BlockState::Downloaded; 5];
    expected.extend(vec![BlockState::Requested; 5]);
    expected.extend(vec![BlockState::NotRequested; 2]);
    assert_eq!(download.block_states, expected);
    for i in 5..7 {
        let action = connection.handle_message(&mut download, &block_of(&data, 0, i)).unwrap();
        assert_eq!(action, Action::Send(vec![request(0, 5 + i as u32, 16384)]));
    }
    for i in 7..11 {
        let action = connection.handle_message(&mut download, &block_of(&data, 0, i)).unwrap();
        assert_eq!(action, Action::Receive);
        assert_eq!(connection.state, PeerConnectionState::GettingPieces);
    }
    let action = connection.handle_message(&mut download, &block_of(&data, 0, 11)).unwrap();
    assert_eq!(action, Action::Complete);
    assert_eq!(connection.state, PeerConnectionState::ReadyToRequest);
    assert!(download.is_complete());
    assert_eq!(download.piece, data);
    assert_eq!(connection.finish_piece(download).unwrap(), data);
}

fn fetch(connection: &mut PeerConnection, index: usize, data: &[u8]) -> PieceDownload {
    let mut download = connection.start_piece(index).unwrap();
    let mut sent = match connection.proceed(&mut download).unwrap() {
        Action::Send(messages) => messages,
        other => panic!("unexpected {:?}", other),
    };
    let mut at = 0;
    loop {
        let (piece_index, begin, length) = match &sent[at] {
            PeerMessage::Request { index, begin, length } => (*index, *begin, *length),
            other => panic!("unexpected {:?}", other),
        };
        at += 1;
        let block = data[begin as usize..(begin + length) as usize].to_vec();
        let message = PeerMessage::Piece { index: piece_index, begin, block };
        match connection.handle_message(&mut download, &message).unwrap() {
            Action::Send(messages) => sent.extend(messages),
            Action::Receive => {},
            Action::Complete => break,
        }
    }
    assert_eq!(at, sent.len());
    download
}

#[test]
fn single_piece_of_two_blocks() {
    let data = payload(32768);
    let mut connection = ready(torrent(32768, 32768, &data));
    let mut download = connection.start_piece(0).unwrap();
    let action = connection.proceed(&mut download).unwrap();
    assert_eq!(action, Action::Send(vec![request(0, 0, 16384), request(0, 1, 16384)]));
    // the blocks may come in any order
    assert_eq!(
        connection.handle_message(&mut download, &block_of(&data, 0, 1)).unwrap(),
        Action::Receive
    );
    assert_eq!(
        connection.handle_message(&mut download, &block_of(&data, 0, 0)).unwrap(),
        Action::Complete
    );
    assert_eq!(connection.finish_piece(download).unwrap(), data);
}

#[test]
fn pieces_one_after_the_other() {
    let data = payload(100000);
    let mut connection = ready(torrent(100000, 40000, &data));
    let mut output = Vec::new();
    for index in 0..connection.torrent.info.piece_count() {
        let start = index * 40000;
        let end = std::cmp::min(start + 40000, data.len());
        let download = fetch(&mut connection, index, &data[start..end]);
        assert_eq!(connection.state, PeerConnectionState::ReadyToRequest);
        output.extend(connection.finish_piece(download).unwrap());
    }
    assert_eq!(output, data);
}

#[test]
fn altered_byte_fails_the_piece() {
    let data = payload(32768);
    let mut connection = ready(torrent(32768, 32768, &data));
    let mut altered = data.clone();
    altered[20000] ^= 1;
    let download = fetch(&mut connection, 0, &altered);
    assert_eq!(connection.finish_piece(download).unwrap_err(), PeerError::IncorrectPieceHash);
}

#[test]
fn blocks_of_other_pieces_and_other_messages_are_passed_over() {
    let data = payload(32768);
    let mut connection = ready(torrent(32768, 32768, &data));
    let mut download = connection.start_piece(0).unwrap();
    connection.proceed(&mut download).unwrap();
    let other = PeerMessage::Piece { index: 1, begin: 0, block: vec![1; 16384] };
    assert_eq!(connection.handle_message(&mut download, &other).unwrap(), Action::Receive);
    assert_eq!(download.block_states, vec![BlockState::Requested; 2]);
    assert_eq!(download.piece, vec![0; 32768]);
    assert_eq!(
        connection.handle_message(&mut download, &PeerMessage::Have(0)).unwrap(),
        Action::Receive
    );
    assert_eq!(
        connection.handle_message(&mut download, &PeerMessage::Unchoke).unwrap(),
        Action::Receive
    );
    assert_eq!(connection.state, PeerConnectionState::GettingPieces);
}

#[test]
fn choke_while_fetching_is_an_error() {
    let data = payload(32768);
    let mut connection = ready(torrent(32768, 32768, &data));
    let mut download = connection.start_piece(0).unwrap();
    connection.proceed(&mut download).unwrap();
    assert_eq!(
        connection.handle_message(&mut download, &PeerMessage::Choke).unwrap_err(),
        PeerError::Choked
    );
    assert_eq!(connection.state, PeerConnectionState::GettingPieces);
}

#[test]
fn blocks_that_do_not_fit_are_refused() {
    let data = payload(20000);
    let mut connection = ready(torrent(20000, 20000, &data));
    let mut download = connection.start_piece(0).unwrap();
    connection.proceed(&mut download).unwrap();
    let cases = vec![
        PeerMessage::Piece { index: 0, begin: 0, block: vec![0; 16383] },
        PeerMessage::Piece { index: 0, begin: 16384, block: vec![0; 16384] },
        PeerMessage::Piece { index: 0, begin: 32768, block: vec![0; 16384] },
        PeerMessage::Piece { index: 0, begin: 0, block: vec![] },
        // these have the length of their block and end after the piece
        PeerMessage::Piece { index: 0, begin: 3617, block: vec![0; 16384] },
        PeerMessage::Piece { index: 0, begin: 16385, block: vec![0; 3616] },
        PeerMessage::Piece { index: 0, begin: 19999, block: vec![0; 3616] },
        PeerMessage::Piece { index: 0, begin: 4294967295, block: vec![0; 16384] },
    ];
    for message in cases {
        assert_eq!(
            connection.handle_message(&mut download, &message).unwrap_err(),
            PeerError::InvalidBlock
        );
        assert_eq!(download.piece, vec![0; 20000]);
        assert_eq!(download.block_states, vec![BlockState::Requested; 2]);
    }
    assert!(download.accepts(16384, &vec![0; 3616]));
    assert!(!download.accepts(16384, &vec![0; 3617]));
}

#[test]
fn handshake_out_of_turn_is_refused() {
    let data = payload(10);
    let mut connection = PeerConnection::new(torrent(10, 4, &data));
    let reply = Handshake { info_hash: [0; 20], peer_id: [1; 20] }.encode();
    assert_eq!(connection.receive_handshake(&reply).unwrap_err(), PeerError::InvalidState);
    assert_eq!(connection.state, PeerConnectionState::Connected);
    assert_eq!(connection.peer_id, None);
}

#[test]
fn download_that_does_not_fit_is_refused() {
    let data = payload(20000);
    let mut connection = ready(torrent(20000, 20000, &data));
    let mut download = connection.start_piece(0).unwrap();
    assert!(download.is_fit());
    download.block_states.push(BlockState::NotRequested);
    assert!(!download.is_fit());
    assert_eq!(connection.proceed(&mut download).unwrap_err(), PeerError::InvalidDownload);
    assert_eq!(
        connection.handle_message(&mut download, &PeerMessage::Unchoke).unwrap_err(),
        PeerError::InvalidDownload
    );
    assert_eq!(connection.state, PeerConnectionState::ReadyToRequest);
}

#[test]
fn unsolicited_block_is_taken() {
    let size = 7 * 16384;
    let data = payload(size);
    let mut connection = ready(torrent(size, size, &data));
    let mut download = connection.start_piece(0).unwrap();
    connection.proceed(&mut download).unwrap();
    // block 6 was not requested yet; it is put into the buffer all the same
    let action = connection.handle_message(&mut download, &block_of(&data, 0, 6)).unwrap();
    assert_eq!(action, Action::Send(vec![request(0, 5, 16384)]));
    assert_eq!(download.block_states[6], BlockState::Downloaded);
    assert_eq!(download.block_states[5], BlockState::Requested);
    assert_eq!(&download.piece[6 * 16384..], &data[6 * 16384..]);
}

#[test]
fn finish_piece_without_a_digest() {
    let data = payload(10);
    let mut connection = ready(torrent(10, 4, &data));
    let download = connection.start_piece(1).unwrap();
    connection.torrent.info.pieces.clear();
    assert_eq!(connection.finish_piece(download).unwrap_err(), PeerError::InvalidPiece);
}

#[test]
fn pieces_are_assembled_in_order() {
    assert_eq!(assemble(&vec![vec![1, 2], vec![], vec![3], vec![4, 5, 6]]), vec![1, 2, 3, 4, 5, 6]);
    assert_eq!(assemble(&Vec::new()), Vec::<u8>::new());
}

#[test]
fn connect_gives_the_handshake_to_send() {
    let data = payload(10);
    let (connection, sent) = PeerConnection::connect(torrent(10, 4, &data)).unwrap();
    assert_eq!(connection.state, PeerConnectionState::WaitingForHandshake);
    assert_eq!(connection.peer_id, None);
    assert_eq!(sent.len(), 68);
    assert_eq!(hex::encode(&sent[28..48]), connection.torrent.info_hash());
    let mut bad = torrent(10, 4, &data);
    bad.info.pieces.pop();
    assert_eq!(PeerConnection::connect(bad).err(), Some(PeerError::InvalidTorrent));
}

#[test]
fn download_piece_starts_with_the_first_step() {
    let data = payload(40000);
    let mut connection = ready(torrent(40000, 40000, &data));
    let (download, action) = connection.download_piece(0).unwrap();
    assert_eq!(
        action,
        Action::Send(vec![request(0, 0, 16384), request(0, 1, 16384), request(0, 2, 7232)])
    );
    assert_eq!(download.block_states, vec![BlockState::Requested; 3]);
    assert_eq!(download.piece, vec![0; 40000]);
    assert_eq!(connection.state, PeerConnectionState::GettingPieces);
    // a second piece cannot start while the first is fetched
    assert_eq!(connection.download_piece(0).err(), Some(PeerError::InvalidState));

    let mut waiting = PeerConnection::new(torrent(40000, 40000, &data));
    waiting.state = PeerConnectionState::WaitingForBitfield;
    let (download, action) = waiting.download_piece(0).unwrap();
    assert_eq!(action, Action::Receive);
    assert_eq!(download.block_states, vec![BlockState::NotRequested; 3]);
    assert_eq!(waiting.state, PeerConnectionState::WaitingForBitfield);
    assert_eq!(waiting.download_piece(1).err(), Some(PeerError::InvalidPiece));
}

#[test]
fn digest_is_checked_against_its_slot() {
    let data = payload(10);
    let connection = ready(torrent(10, 4, &data));
    assert_eq!(connection.check_digest(0, &digest(&data[0..4])), Ok(()));
    assert_eq!(connection.check_digest(2, &digest(&data[8..10])), Ok(()));
    assert_eq!(
        connection.check_digest(1, &digest(&data[0..4])),
        Err(PeerError::IncorrectPieceHash)
    );
    assert_eq!(connection.check_digest(0, &[]), Err(PeerError::IncorrectPieceHash));
    assert_eq!(connection.check_digest(3, &digest(&data[0..4])), Err(PeerError::InvalidPiece));
}

#[test]
fn block_state_starts_unrequested() {
    assert_eq!(BlockState::default(), BlockState::NotRequested);
}

#[test]
fn block_off_its_offset_is_written_where_it_says() {
    let data = payload(40000);
    let mut connection = ready(torrent(40000, 40000, &data));
    let mut download = connection.start_piece(0).unwrap();
    connection.proceed(&mut download).unwrap();
    let block: Vec<u8> = (0..16384).map(|i| (i % 251) as u8 + 1).collect();
    assert!(download.accepts(1, &block));
    assert!(download.accepts(3616, &block));
    assert!(download.accepts(16385, &block));
    assert!(!download.accepts(32769, &vec![1; 7232]));
    let message = PeerMessage::Piece { index: 0, begin: 16385, block: block.clone() };
    // the window of three is open and no block is left to request
    assert_eq!(connection.handle_message(&mut download, &message).unwrap(), Action::Receive);
    assert_eq!(
        download.block_states,
        vec![BlockState::Requested, BlockState::Downloaded, BlockState::Requested]
    );
    assert_eq!(&download.piece[..16385], &vec![0u8; 16385][..]);
    assert_eq!(&download.piece[16385..32769], &block[..]);
    assert_eq!(&download.piece[32769..], &vec![0u8; 40000 - 32769][..]);
    // the blocks at their own offsets then make the piece
    for i in [1, 2, 0] {
        connection.handle_message(&mut download, &block_of(&data, 0, i)).unwrap();
    }
    assert_eq!(connection.state, PeerConnectionState::ReadyToRequest);
    assert_eq!(connection.finish_piece(download).unwrap(), data);
}

#[test]
fn block_off_its_offset_fails_the_digest() {
    let data = payload(40000);
    let mut connection = ready(torrent(40000, 40000, &data));
    let mut download = connection.start_piece(0).unwrap();
    connection.proceed(&mut download).unwrap();
    connection.handle_message(&mut download, &block_of(&data, 0, 1)).unwrap();
    connection.handle_message(&mut download, &block_of(&data, 0, 2)).unwrap();
    let displaced = PeerMessage::Piece { index: 0, begin: 1, block: data[..16384].to_vec() };
    assert_eq!(connection.handle_message(&mut download, &displaced).unwrap(), Action::Complete);
    assert!(download.is_complete());
    assert_eq!(connection.finish_piece(download).unwrap_err(), PeerError::IncorrectPieceHash);
}
