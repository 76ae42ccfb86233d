//! The connection to a peer: its states, and the pipeline of requests that
//! fetches a piece block by block.

use vstd::prelude::*;
use vstd::string::StringSliceAdditionalSpecFns;
use crate::digest::{hex_chars, hex_encode, lemma_hex_injective, sha1, sha1_digest};
use crate::torrent::{info_hash_of, piece_count_of, Torrent, TorrentInfo};
use crate::tracker::PEER_ID;
use crate::wire::{
    handshake_bytes, parse_handshake, Handshake, HandshakeError, Message, PeerMessage,
};

verus! {

/// Size of one block, the unit of a `request` message.
pub const BLOCK_LEN: usize = 16384;

/// Largest number of requests that may be outstanding at once.
pub const MAX_CONCURRENT_REQUESTS: usize = 5;

/// Mathematical ceiling of `a / b` for positive `b`.
pub open spec fn ceil_div(a: int, b: int) -> int {
    if a % b == 0 {
        a / b
    } else {
        a / b + 1
    }
}

/// Divides `a` by `b`, rounding up.
pub fn div_round_up(a: usize, b: usize) -> (q: usize)
    requires
        b > 0,
    ensures
        q == ceil_div(a as int, b as int),
        (q - 1) * b < a <= q * b || (a == 0 && q == 0),
{
    let whole: usize = a / b;
    let part: usize = a % b;
    proof {
        vstd::arithmetic::div_mod::lemma_fundamental_div_mod(a as int, b as int);
        assert(a == b * whole + part);
        assert(whole * b == b * whole) by (nonlinear_arith);
        assert((whole + 1) * b == whole * b + b) by (nonlinear_arith);
        assert((whole - 1) * b == whole * b - b) by (nonlinear_arith);
    }
    if part == 0 {
        whole
    } else {
        assert(whole < usize::MAX) by (nonlinear_arith)
            requires
                a == b * whole + part,
                part > 0,
                b > 0,
                a <= usize::MAX,
        ;
        whole + 1
    }
}

/// The size of the piece `index` of a payload of `length` bytes in pieces of
/// `piece_length` bytes: every piece but the last has the full size, and the
/// last has what is left, or the full size where nothing is left over.
pub open spec fn piece_size_of(length: nat, piece_length: nat, index: nat) -> nat {
    let count = piece_count_of(length, piece_length);
    let last = length - piece_length * (count - 1);
    if index + 1 == count && last != 0 {
        last as nat
    } else {
        piece_length
    }
}

/// The number of blocks of a piece of `size` bytes.
pub open spec fn block_count_of(size: nat) -> nat {
    ceil_div(size as int, BLOCK_LEN as int) as nat
}

/// The size of the block `block` of a piece of `size` bytes: every block but
/// the last has the full size, and the last has what is left.
pub open spec fn block_size_of(size: nat, block: nat) -> nat {
    if block + 1 == block_count_of(size) && size % (BLOCK_LEN as nat) != 0 {
        size % (BLOCK_LEN as nat)
    } else {
        BLOCK_LEN as nat
    }
}

/// The blocks of a piece lie one after the other within the piece, and the
/// last one ends where the piece ends.
pub proof fn lemma_block_bounds(size: nat, block: nat)
    requires
        block < block_count_of(size),
    ensures
        1 <= block_size_of(size, block) <= BLOCK_LEN,
        block * BLOCK_LEN + block_size_of(size, block) <= size,
        block + 1 == block_count_of(size) ==> block * BLOCK_LEN + block_size_of(size, block)
            == size,
        block + 1 < block_count_of(size) ==> block_size_of(size, block) == BLOCK_LEN,
{
    vstd::arithmetic::div_mod::lemma_fundamental_div_mod(size as int, BLOCK_LEN as int);
}

impl TorrentInfo {
    /// The size of the piece `index`.
    pub fn piece_size(&self, index: usize) -> (size: usize)
        requires
            self.piece_length > 0,
            index < piece_count_of(self.length as nat, self.piece_length as nat),
        ensures
            size == piece_size_of(self.length as nat, self.piece_length as nat, index as nat),
            1 <= size <= self.piece_length,
    {
        let count: usize = self.piece_count();
        let left: usize = self.length % self.piece_length;
        proof {
            let l = self.length as int;
            let p = self.piece_length as int;
            vstd::arithmetic::div_mod::lemma_fundamental_div_mod(l, p);
            let q = l / p;
            assert(p * (q - 1) == p * q - p) by (nonlinear_arith);
            assert(p * q >= 0 ==> q >= 0) by (nonlinear_arith)
                requires
                    p > 0,
            ;
        }
        if index == count - 1 && left != 0 {
            left
        } else {
            self.piece_length
        }
    }
}

/// The states of a connection to a peer.
#[derive(Debug, Clone, Copy, PartialEq, Eq, Structural)]
pub enum PeerConnectionState {
    Connected,
    WaitingForHandshake,
    WaitingForBitfield,
    ReadyToExpressInterest,
    WaitingForUnchoke,
    ReadyToRequest,
    GettingPieces,
}

/// How far a block of the current piece has come.
#[derive(Debug, Clone, Copy, PartialEq, Eq, Structural)]
pub enum BlockState {
    NotRequested,
    Requested,
    Downloaded,
}

impl Default for BlockState {
    fn default() -> (state: Self)
        ensures
            state == BlockState::NotRequested,
    {
        BlockState::NotRequested
    }
}

/// Why a connection cannot go on.
#[derive(Debug, Clone, Copy, PartialEq, Eq, Structural)]
pub enum PeerError {
    /// The connection is in a state in which the step cannot be taken.
    InvalidState,
    /// The torrent's sizes do not fit its integers, or its piece length is 0.
    InvalidTorrent,
    /// The peer's handshake was refused.
    Handshake(HandshakeError),
    /// The peer sent another message than the one that the state calls for.
    UnexpectedMessage,
    /// The peer choked the connection while a piece was being fetched.
    Choked,
    /// The torrent has no such piece, no digest for it, or the piece does
    /// not fit the 32-bit offsets of a request.
    InvalidPiece,
    /// A block starts or ends outside the piece, or has another length than
    /// the block in which it starts.
    InvalidBlock,
    /// The SHA-1 digest of the piece is not the expected one.
    IncorrectPieceHash,
    /// The blocks and the buffer of a download do not fit one piece.
    InvalidDownload,
}

/// A connection to one peer, without its socket: the torrent, the state of
/// the protocol, and the peer's identifier once it has sent its handshake.
#[derive(Debug)]
pub struct PeerConnection {
    pub torrent: Torrent,
    pub state: PeerConnectionState,
    pub peer_id: Option<[u8; 20]>,
}

/// The blocks and the buffer of the piece that is being fetched.
pub struct PieceDownload {
    pub piece_index: usize,
    pub block_states: Vec<BlockState>,
    pub piece: Vec<u8>,
    /// For each block, the payload that was last put into the buffer.
    pub received: Ghost<Seq<Seq<u8>>>,
    /// For each block, whether its last payload was put at the block's own
    /// offset and nothing was written over it since.
    pub in_place: Ghost<Seq<bool>>,
}

/// What the caller does next for the connection.
#[derive(Debug, PartialEq, Eq)]
pub enum Action {
    /// Send these messages in order, then go on.
    Send(Vec<PeerMessage>),
    /// Read the next message from the peer and hand it over.
    Receive,
    /// Every block of the piece is in the buffer.
    Complete,
}

/// The messages that `messages` are, in order.
pub open spec fn message_views(messages: Seq<PeerMessage>) -> Seq<Message> {
    Seq::new(messages.len(), |i: int| messages[i]@)
}

/// The request for the block `block` of the piece `piece_index` of `size`
/// bytes.
pub open spec fn request_for(piece_index: nat, size: nat, block: nat) -> Message {
    Message::Request {
        index: piece_index as u32,
        begin: (block * BLOCK_LEN) as u32,
        length: block_size_of(size, block) as u32,
    }
}

/// The number of requests that open the fetching of a piece of `count`
/// blocks.
pub open spec fn window(count: nat) -> nat {
    if count < MAX_CONCURRENT_REQUESTS {
        count
    } else {
        MAX_CONCURRENT_REQUESTS as nat
    }
}

/// The first block that has not been requested.
pub open spec fn first_unrequested(blocks: Seq<BlockState>) -> Option<int>
    decreases blocks.len(),
{
    if blocks.len() == 0 {
        None
    } else if blocks[0] == BlockState::NotRequested {
        Some(0)
    } else {
        match first_unrequested(blocks.skip(1)) {
            Some(i) => Some(i + 1),
            None => None,
        }
    }
}

/// The first unrequested block is at `p` when no earlier block is
/// unrequested and the one at `p` is; with none before `p == blocks.len()`,
/// there is none.
pub proof fn lemma_first_unrequested(blocks: Seq<BlockState>, p: int)
    requires
        0 <= p <= blocks.len(),
        forall|j: int| 0 <= j < p ==> blocks[j] != BlockState::NotRequested,
        p < blocks.len() ==> blocks[p] == BlockState::NotRequested,
    ensures
        p < blocks.len() ==> first_unrequested(blocks) == Some(p),
        p == blocks.len() ==> first_unrequested(blocks) is None,
    decreases p,
{
    if p > 0 {
        let rest = blocks.skip(1);
        assert forall|j: int| 0 <= j < p - 1 implies rest[j] != BlockState::NotRequested by {
            assert(rest[j] == blocks[j + 1]);
        }
        lemma_first_unrequested(rest, p - 1);
    }
}

/// Whether `blocks` and `piece` are the blocks and the buffer of one piece
/// whose index and size fit 32 bits.
pub open spec fn fits_piece(piece_index: nat, blocks: Seq<BlockState>, piece: Seq<u8>) -> bool {
    &&& 1 <= piece.len() <= u32::MAX
    &&& piece_index <= u32::MAX
    &&& blocks.len() == block_count_of(piece.len())
}

/// Whether every block is in the buffer.
pub open spec fn all_downloaded(blocks: Seq<BlockState>) -> bool {
    forall|i: int| 0 <= i < blocks.len() ==> #[trigger] blocks[i] == BlockState::Downloaded
}

/// The buffer `buffer` with `block` written at `begin`.
pub open spec fn with_block(buffer: Seq<u8>, begin: int, block: Seq<u8>) -> Seq<u8> {
    buffer.subrange(0, begin) + block + buffer.subrange(begin + block.len(), buffer.len() as int)
}

impl PieceDownload {
    /// The size of the piece.
    pub open spec fn size(&self) -> nat {
        self.piece@.len()
    }

    /// Whether the blocks and the buffer fit one piece with 32-bit offsets.
    pub open spec fn fits(&self) -> bool {
        fits_piece(self.piece_index as nat, self.block_states@, self.piece@)
    }

    /// Whether the buffer holds, for each block that is marked as
    /// downloaded and whose payload stands in place, the payload that was
    /// received for it, at the block's own offset.
    pub open spec fn recorded(&self) -> bool {
        &&& self.received@.len() == self.block_states@.len()
        &&& self.in_place@.len() == self.block_states@.len()
        &&& forall|i: int|
            0 <= i < self.block_states@.len() && self.block_states@[i] == BlockState::Downloaded
                && self.in_place@[i] ==> #[trigger] self.received@[i] == self.piece@.subrange(
                i * BLOCK_LEN,
                i * BLOCK_LEN + block_size_of(self.size(), i as nat),
            )
    }

    /// Whether the payload of every block stands in place.
    pub open spec fn all_in_place(&self) -> bool {
        forall|i: int| 0 <= i < self.in_place@.len() ==> #[trigger] self.in_place@[i]
    }

    /// Whether the download fits its piece and its buffer holds what was
    /// received.
    pub open spec fn well_formed(&self) -> bool {
        self.fits() && self.recorded()
    }

    /// Whether every block of the piece is in the buffer.
    pub open spec fn complete(&self) -> bool {
        all_downloaded(self.block_states@)
    }
}

impl PeerConnection {
    /// A connection for `torrent` on which nothing has been sent.
    pub fn new(torrent: Torrent) -> (connection: Self)
        ensures
            connection.torrent == torrent,
            connection.state == PeerConnectionState::Connected,
            connection.peer_id is None,
    {
        PeerConnection { torrent, state: PeerConnectionState::Connected, peer_id: None }
    }

    /// The handshake to send to the peer; the connection then waits for the
    /// peer's handshake.
    pub fn send_handshake(&mut self) -> (r: Result<Vec<u8>, PeerError>)
        ensures
            final(self).torrent == old(self).torrent,
            final(self).peer_id == old(self).peer_id,
            match r {
                Ok(bytes) => {
                    &&& old(self).torrent.info.well_formed()
                    &&& bytes@ == handshake_bytes(
                        info_hash_of(old(self).torrent@),
                        PEER_ID.spec_bytes(),
                    )
                    &&& final(self).state == PeerConnectionState::WaitingForHandshake
                },
                Err(e) => {
                    &&& !old(self).torrent.info.well_formed()
                    &&& e == PeerError::InvalidTorrent
                    &&& final(self).state == old(self).state
                },
            },
    {
        if !self.torrent.info.is_well_formed() {
            return Err(PeerError::InvalidTorrent);
        }
        match Handshake::new(&self.torrent) {
            Ok(handshake_request) => {
                let bytes = handshake_request.encode();
                self.state = PeerConnectionState::WaitingForHandshake;
                Ok(bytes)
            },
            Err(e) => Err(PeerError::Handshake(e)),
        }
    }

    /// Takes the peer's handshake while the connection waits for it: the
    /// peer's identifier is kept, and the connection then waits for the
    /// peer's bitfield.
    pub fn receive_handshake(&mut self, frame: &[u8]) -> (r: Result<(), PeerError>)
        ensures
            final(self).torrent == old(self).torrent,
            old(self).state != PeerConnectionState::WaitingForHandshake ==> {
                &&& r == Err::<(), PeerError>(PeerError::InvalidState)
                &&& final(self).peer_id == old(self).peer_id
                &&& final(self).state == old(self).state
            },
            old(self).state == PeerConnectionState::WaitingForHandshake ==> match parse_handshake(
                frame@,
            ) {
                Ok((_, peer_id)) => {
                    &&& r is Ok
                    &&& final(self).peer_id matches Some(id)
                    &&& id@ == peer_id
                    &&& final(self).state == PeerConnectionState::WaitingForBitfield
                },
                Err(e) => {
                    &&& r == Err::<(), PeerError>(PeerError::Handshake(e))
                    &&& final(self).peer_id == old(self).peer_id
                    &&& final(self).state == old(self).state
                },
            },
    {
        if self.state != PeerConnectionState::WaitingForHandshake {
            return Err(PeerError::InvalidState);
        }
        match Handshake::decode(frame) {
            Ok(handshake_response) => {
                self.peer_id = Some(handshake_response.peer_id);
                self.state = PeerConnectionState::WaitingForBitfield;
                Ok(())
            },
            Err(e) => Err(PeerError::Handshake(e)),
        }
    }
}

impl PeerConnection {
    /// Why the piece `piece_index` cannot be fetched now, if it cannot: the
    /// state does not allow it, the torrent is not well formed, or the
    /// torrent has no such piece with a digest and 32-bit offsets.
    pub open spec fn start_error(&self, piece_index: usize) -> Option<PeerError> {
        let info = self.torrent.info;
        if self.state != PeerConnectionState::WaitingForBitfield && self.state
            != PeerConnectionState::ReadyToExpressInterest && self.state
            != PeerConnectionState::ReadyToRequest {
            Some(PeerError::InvalidState)
        } else if !info.well_formed() {
            Some(PeerError::InvalidTorrent)
        } else if piece_index >= piece_count_of(info.length as nat, info.piece_length as nat)
            || 20 * (piece_index + 1) > info.pieces@.len() || piece_index > u32::MAX
            || piece_size_of(info.length as nat, info.piece_length as nat, piece_index as nat)
            > u32::MAX {
            Some(PeerError::InvalidPiece)
        } else {
            None
        }
    }

    /// The engine of this connection with the piece `piece_index` and nothing
    /// fetched: no block is requested, and the buffer holds zeros.
    pub open spec fn fresh(&self, piece_index: usize) -> Engine {
        let size = piece_size_of(
            self.torrent.info.length as nat,
            self.torrent.info.piece_length as nat,
            piece_index as nat,
        );
        Engine {
            state: self.state,
            piece_index: piece_index as nat,
            blocks: Seq::new(block_count_of(size), |i: int| BlockState::NotRequested),
            piece: Seq::new(size, |i: int| 0u8),
            received: Seq::new(block_count_of(size), |i: int| Seq::<u8>::empty()),
            in_place: Seq::new(block_count_of(size), |i: int| false),
        }
    }

    /// Sets up the blocks and the buffer for the piece `piece_index`: no
    /// block is requested yet, and the buffer holds zeros.
    pub fn start_piece(&self, piece_index: usize) -> (r: Result<PieceDownload, PeerError>)
        ensures
            match self.start_error(piece_index) {
                Some(e) => r matches Err(f) && f == e,
                None => {
                    &&& r matches Ok(download)
                    &&& download.well_formed()
                    &&& engine_of(*self, download) == self.fresh(piece_index)
                },
            },
    {
        match self.state {
            PeerConnectionState::WaitingForBitfield
            | PeerConnectionState::ReadyToExpressInterest
            | PeerConnectionState::ReadyToRequest => {},
            _ => {
                return Err(PeerError::InvalidState);
            },
        }
        if !self.torrent.info.is_well_formed() {
            return Err(PeerError::InvalidTorrent);
        }
        let count: usize = self.torrent.info.piece_count();
        if piece_index >= count || piece_index >= self.torrent.info.pieces.len() / 20
            || piece_index as u64 > 4294967295u64 {
            return Err(PeerError::InvalidPiece);
        }
        let piece_length: usize = self.torrent.info.piece_size(piece_index);
        if piece_length as u64 > 4294967295u64 {
            return Err(PeerError::InvalidPiece);
        }
        let block_count: usize = div_round_up(piece_length, BLOCK_LEN);
        let block_states: Vec<BlockState> = vec![BlockState::NotRequested; block_count];
        let piece: Vec<u8> = vec![0u8; piece_length];
        let download = PieceDownload {
            piece_index,
            block_states,
            piece,
            received: Ghost(Seq::new(block_count as nat, |i: int| Seq::<u8>::empty())),
            in_place: Ghost(Seq::new(block_count as nat, |i: int| false)),
        };
        proof {
            assert(download.piece@ =~= self.fresh(piece_index).piece);
            assert(download.block_states@ =~= self.fresh(piece_index).blocks);
            assert(download.received@ =~= self.fresh(piece_index).received);
            assert(download.in_place@ =~= self.fresh(piece_index).in_place);
        }
        Ok(download)
    }
}

/// The state of a connection while a piece is fetched, as mathematics.
pub struct Engine {
    pub state: PeerConnectionState,
    pub piece_index: nat,
    pub blocks: Seq<BlockState>,
    pub piece: Seq<u8>,
    pub received: Seq<Seq<u8>>,
    pub in_place: Seq<bool>,
}

/// What the caller does next, as mathematics.
pub enum Step {
    Send(Seq<Message>),
    Receive,
    Complete,
}

/// A step of the engine: the state after it, and what the caller does next
/// or why the connection cannot go on.
pub struct Outcome {
    pub engine: Engine,
    pub result: Result<Step, PeerError>,
}

/// The engine with the requests of the opening window sent: the blocks of
/// the window are marked as requested.
pub open spec fn open_window(e: Engine) -> Outcome {
    let n = window(e.blocks.len());
    Outcome {
        engine: Engine {
            state: PeerConnectionState::GettingPieces,
            blocks: Seq::new(
                e.blocks.len(),
                |i: int|
                    if i < n {
                        BlockState::Requested
                    } else {
                        e.blocks[i]
                    },
            ),
            ..e
        },
        result: Ok(
            Step::Send(
                Seq::new(n, |i: int| request_for(e.piece_index, e.piece.len(), i as nat)),
            ),
        ),
    }
}

/// The engine with `Interested` sent.
pub open spec fn express_interest(e: Engine) -> Outcome {
    Outcome {
        engine: Engine { state: PeerConnectionState::WaitingForUnchoke, ..e },
        result: Ok(Step::Send(seq![Message::Interested])),
    }
}

/// The step that the engine takes when nothing has been received.
pub open spec fn after_proceed(e: Engine) -> Outcome {
    if !fits_piece(e.piece_index, e.blocks, e.piece) {
        Outcome { engine: e, result: Err(PeerError::InvalidDownload) }
    } else {
        after_proceed_fit(e)
    }
}

/// The step that the engine takes when nothing has been received and its
/// blocks and buffer fit one piece.
pub open spec fn after_proceed_fit(e: Engine) -> Outcome {
    match e.state {
        PeerConnectionState::Connected | PeerConnectionState::WaitingForHandshake => Outcome {
            engine: e,
            result: Err(PeerError::InvalidState),
        },
        PeerConnectionState::ReadyToExpressInterest => express_interest(e),
        PeerConnectionState::ReadyToRequest => open_window(e),
        _ => Outcome { engine: e, result: Ok(Step::Receive) },
    }
}

/// Whether `block` can be put at `begin`: `begin` lies in a block of the
/// piece, `block` has the length of that block, and it ends within the
/// piece.
pub open spec fn valid_block(size: nat, begin: nat, block: Seq<u8>) -> bool {
    &&& begin / (BLOCK_LEN as nat) < block_count_of(size)
    &&& block.len() == block_size_of(size, begin / (BLOCK_LEN as nat))
    &&& begin + block.len() <= size
}

/// Which payloads stand in place after a block was put at `begin`: one put
/// at the offset of its block stands in place; one put elsewhere does not,
/// and it has written over the start of the block that follows.
pub open spec fn in_place_after(in_place: Seq<bool>, begin: nat) -> Seq<bool> {
    let at = (begin / (BLOCK_LEN as nat)) as int;
    if begin % (BLOCK_LEN as nat) == 0 {
        in_place.update(at, true)
    } else {
        in_place.update(at, false).update(at + 1, false)
    }
}

/// A block that can be put off the offset of its block is not the last
/// block, and ends within the block that follows.
pub proof fn lemma_displaced_block(size: nat, begin: nat, block: Seq<u8>)
    requires
        valid_block(size, begin, block),
        begin % (BLOCK_LEN as nat) != 0,
    ensures
        begin / (BLOCK_LEN as nat) + 1 < block_count_of(size),
        begin / (BLOCK_LEN as nat) * BLOCK_LEN < begin,
        begin + block.len() < (begin / (BLOCK_LEN as nat) + 2) * BLOCK_LEN,
{
    let at = begin / (BLOCK_LEN as nat);
    vstd::arithmetic::div_mod::lemma_fundamental_div_mod(begin as int, BLOCK_LEN as int);
    lemma_block_bounds(size, at);
}

/// The engine with the block `block` of the current piece put at `begin`: the
/// block in which `begin` lies is marked as downloaded, and the first
/// unrequested block, if there is one, is requested.
pub open spec fn after_block(e: Engine, begin: nat, block: Seq<u8>) -> Outcome {
    let at = (begin / (BLOCK_LEN as nat)) as int;
    let blocks = e.blocks.update(at, BlockState::Downloaded);
    let filled = Engine {
        piece: with_block(e.piece, begin as int, block),
        received: e.received.update(at, block),
        in_place: in_place_after(e.in_place, begin),
        blocks,
        ..e
    };
    match first_unrequested(blocks) {
        Some(next) => Outcome {
            engine: Engine { blocks: blocks.update(next, BlockState::Requested), ..filled },
            result: Ok(
                Step::Send(seq![request_for(e.piece_index, e.piece.len(), next as nat)]),
            ),
        },
        None => if all_downloaded(blocks) {
            Outcome {
                engine: Engine { state: PeerConnectionState::ReadyToRequest, ..filled },
                result: Ok(Step::Complete),
            }
        } else {
            Outcome { engine: filled, result: Ok(Step::Receive) }
        },
    }
}

/// The step that the engine takes when the peer has sent `m`.
pub open spec fn after_message(e: Engine, m: Message) -> Outcome {
    if !fits_piece(e.piece_index, e.blocks, e.piece) {
        Outcome { engine: e, result: Err(PeerError::InvalidDownload) }
    } else {
        after_message_fit(e, m)
    }
}

/// The step that the engine takes when the peer has sent `m` and its blocks
/// and buffer fit one piece.
pub open spec fn after_message_fit(e: Engine, m: Message) -> Outcome {
    match e.state {
        PeerConnectionState::WaitingForBitfield => match m {
            Message::Bitfield(_) => express_interest(e),
            _ => Outcome { engine: e, result: Err(PeerError::UnexpectedMessage) },
        },
        PeerConnectionState::WaitingForUnchoke => match m {
            Message::Unchoke => open_window(e),
            _ => Outcome { engine: e, result: Ok(Step::Receive) },
        },
        PeerConnectionState::GettingPieces => match m {
            Message::Choke => Outcome { engine: e, result: Err(PeerError::Choked) },
            Message::Piece { index, begin, block } => if index != e.piece_index {
                Outcome { engine: e, result: Ok(Step::Receive) }
            } else if !valid_block(e.piece.len(), begin as nat, block) {
                Outcome { engine: e, result: Err(PeerError::InvalidBlock) }
            } else {
                after_block(e, begin as nat, block)
            },
            _ => Outcome { engine: e, result: Ok(Step::Receive) },
        },
        _ => Outcome { engine: e, result: Err(PeerError::InvalidState) },
    }
}

/// The engine that a connection and a download make.
pub open spec fn engine_of(connection: PeerConnection, download: PieceDownload) -> Engine {
    Engine {
        state: connection.state,
        piece_index: download.piece_index as nat,
        blocks: download.block_states@,
        piece: download.piece@,
        received: download.received@,
        in_place: download.in_place@,
    }
}

/// Whether `r` is what `m` says.
pub open spec fn is_step(r: Result<Action, PeerError>, m: Result<Step, PeerError>) -> bool {
    match m {
        Ok(Step::Send(messages)) => r matches Ok(Action::Send(list)) && message_views(list@)
            == messages,
        Ok(Step::Receive) => r matches Ok(Action::Receive),
        Ok(Step::Complete) => r matches Ok(Action::Complete),
        Err(e) => r matches Err(f) && f == e,
    }
}

impl PieceDownload {
    /// The request for the block `block` of this piece.
    pub fn request(&self, block: usize) -> (message: PeerMessage)
        requires
            self.fits(),
            block < self.block_states@.len(),
        ensures
            message@ == request_for(self.piece_index as nat, self.size(), block as nat),
    {
        let size: usize = self.piece.len();
        let count: usize = self.block_states.len();
        let left: usize = size % BLOCK_LEN;
        proof {
            lemma_block_bounds(size as nat, block as nat);
        }
        let length: usize = if block == count - 1 && left != 0 {
            left
        } else {
            BLOCK_LEN
        };
        PeerMessage::Request {
            index: self.piece_index as u32,
            begin: (block * BLOCK_LEN) as u32,
            length: length as u32,
        }
    }

    /// Marks the blocks of the opening window as requested and returns the
    /// requests for them, in the order of the blocks.
    pub fn open_window(&mut self) -> (messages: Vec<PeerMessage>)
        requires
            old(self).fits(),
        ensures
            final(self).fits(),
            old(self).recorded() ==> final(self).recorded(),
            final(self).piece_index == old(self).piece_index,
            final(self).piece@ == old(self).piece@,
            final(self).received@ == old(self).received@,
            final(self).in_place@ == old(self).in_place@,
            final(self).block_states@ == Seq::new(
                old(self).block_states@.len(),
                |i: int|
                    if i < window(old(self).block_states@.len()) {
                        BlockState::Requested
                    } else {
                        old(self).block_states@[i]
                    },
            ),
            message_views(messages@) == Seq::new(
                window(old(self).block_states@.len()),
                |i: int| request_for(old(self).piece_index as nat, old(self).size(), i as nat),
            ),
    {
        let count: usize = self.block_states.len();
        let n: usize = if count < MAX_CONCURRENT_REQUESTS {
            count
        } else {
            MAX_CONCURRENT_REQUESTS
        };
        let mut messages: Vec<PeerMessage> = Vec::new();
        let mut i: usize = 0;
        while i < n
            invariant
                i <= n <= count,
                n == window(count as nat),
                count == old(self).block_states@.len(),
                self.fits(),
                old(self).recorded() ==> self.recorded(),
                self.piece_index == old(self).piece_index,
                self.piece@ == old(self).piece@,
                self.received@ == old(self).received@,
                self.in_place@ == old(self).in_place@,
                self.block_states@.len() == count,
                forall|j: int|
                    0 <= j < count ==> #[trigger] self.block_states@[j] == if j < i {
                        BlockState::Requested
                    } else {
                        old(self).block_states@[j]
                    },
                messages@.len() == i,
                forall|j: int|
                    0 <= j < i ==> (#[trigger] messages@[j])@ == request_for(
                        old(self).piece_index as nat,
                        old(self).size(),
                        j as nat,
                    ),
            decreases n - i,
        {
            let message = self.request(i);
            messages.push(message);
            self.block_states[i] = BlockState::Requested;
            i = i + 1;
        }
        proof {
            assert(self.block_states@ =~= Seq::new(
                old(self).block_states@.len(),
                |i: int|
                    if i < window(old(self).block_states@.len()) {
                        BlockState::Requested
                    } else {
                        old(self).block_states@[i]
                    },
            ));
            assert(message_views(messages@) =~= Seq::new(
                window(old(self).block_states@.len()),
                |i: int| request_for(old(self).piece_index as nat, old(self).size(), i as nat),
            ));
        }
        messages
    }
}

impl PieceDownload {
    /// Whether `block` can be put at `begin` in this piece.
    pub fn accepts(&self, begin: u32, block: &[u8]) -> (ok: bool)
        requires
            self.fits(),
        ensures
            ok == valid_block(self.size(), begin as nat, block@),
    {
        let start: usize = begin as usize;
        let at: usize = start / BLOCK_LEN;
        let count: usize = self.block_states.len();
        if at >= count {
            return false;
        }
        let size: usize = self.piece.len();
        let left: usize = size % BLOCK_LEN;
        let length: usize = if at == count - 1 && left != 0 {
            left
        } else {
            BLOCK_LEN
        };
        block.len() == length && start as u64 + length as u64 <= size as u64
    }

    /// Writes `block` into the buffer at `begin` and marks the block in which
    /// `begin` lies as downloaded.
    pub fn put_block(&mut self, begin: u32, block: &[u8])
        requires
            old(self).fits(),
            valid_block(old(self).size(), begin as nat, block@),
        ensures
            final(self).fits(),
            old(self).recorded() ==> final(self).recorded(),
            final(self).piece_index == old(self).piece_index,
            final(self).piece@ == with_block(old(self).piece@, begin as int, block@),
            final(self).block_states@ == old(self).block_states@.update(
                begin as int / BLOCK_LEN as int,
                BlockState::Downloaded,
            ),
            final(self).received@ == old(self).received@.update(
                begin as int / BLOCK_LEN as int,
                block@,
            ),
            final(self).in_place@ == in_place_after(old(self).in_place@, begin as nat),
    {
        let start: usize = begin as usize;
        let at: usize = start / BLOCK_LEN;
        let length: usize = block.len();
        let ghost size = self.size();
        proof {
            lemma_block_bounds(size, at as nat);
            if begin as nat % (BLOCK_LEN as nat) != 0 {
                lemma_displaced_block(size, begin as nat, block@);
            }
        }
        let mut i: usize = 0;
        while i < length
            invariant
                i <= length,
                length == block@.len(),
                start + length <= size,
                size <= u32::MAX,
                size == old(self).piece@.len(),
                self.piece@.len() == size,
                self.piece_index == old(self).piece_index,
                self.block_states == old(self).block_states,
                self.received == old(self).received,
                self.in_place == old(self).in_place,
                forall|j: int|
                    0 <= j < size ==> #[trigger] self.piece@[j] == if start <= j < start + i {
                        block@[j - start]
                    } else {
                        old(self).piece@[j]
                    },
            decreases length - i,
        {
            self.piece[start + i] = block[i];
            i = i + 1;
        }
        self.block_states[at] = BlockState::Downloaded;
        self.received = Ghost(self.received@.update(at as int, block@));
        self.in_place = Ghost(in_place_after(self.in_place@, begin as nat));
        proof {
            assert(self.piece@ =~= with_block(old(self).piece@, begin as int, block@));
            assert forall|k: int|
                old(self).recorded() && 0 <= k < self.block_states@.len()
                    && self.block_states@[k] == BlockState::Downloaded && self.in_place@[k]
                    implies #[trigger] self.received@[k] == self.piece@.subrange(
                k * BLOCK_LEN,
                k * BLOCK_LEN + block_size_of(self.size(), k as nat),
            ) by {
                lemma_block_bounds(size, k as nat);
                if k == at {
                    assert(self.piece@.subrange(start as int, start + length) =~= block@);
                } else {
                    assert(old(self).block_states@[k] == BlockState::Downloaded);
                    assert(old(self).in_place@[k]);
                    assert(self.piece@.subrange(
                        k * BLOCK_LEN,
                        k * BLOCK_LEN + block_size_of(size, k as nat),
                    ) =~= old(self).piece@.subrange(
                        k * BLOCK_LEN,
                        k * BLOCK_LEN + block_size_of(size, k as nat),
                    ));
                }
            }
        }
    }

    /// The first block that has not been requested.
    pub fn next_unrequested(&self) -> (r: Option<usize>)
        ensures
            match r {
                Some(n) => first_unrequested(self.block_states@) == Some(n as int) && n
                    < self.block_states@.len(),
                None => first_unrequested(self.block_states@) is None,
            },
    {
        let mut i: usize = 0;
        while i < self.block_states.len()
            invariant
                i <= self.block_states@.len(),
                forall|j: int| 0 <= j < i ==> self.block_states@[j] != BlockState::NotRequested,
            decreases self.block_states@.len() - i,
        {
            if self.block_states[i] == BlockState::NotRequested {
                proof {
                    lemma_first_unrequested(self.block_states@, i as int);
                }
                return Some(i);
            }
            i = i + 1;
        }
        proof {
            lemma_first_unrequested(self.block_states@, i as int);
        }
        None
    }

    /// Whether the blocks and the buffer fit one piece with 32-bit offsets.
    pub fn is_fit(&self) -> (ok: bool)
        ensures
            ok == self.fits(),
    {
        let size: usize = self.piece.len();
        1 <= size && size as u64 <= 4294967295u64 && self.piece_index as u64 <= 4294967295u64
            && self.block_states.len() == div_round_up(size, BLOCK_LEN)
    }

    /// Whether every block of the piece is in the buffer.
    pub fn is_complete(&self) -> (done: bool)
        ensures
            done == self.complete(),
    {
        let mut i: usize = 0;
        while i < self.block_states.len()
            invariant
                i <= self.block_states@.len(),
                forall|j: int| 0 <= j < i ==> self.block_states@[j] == BlockState::Downloaded,
            decreases self.block_states@.len() - i,
        {
            if self.block_states[i] != BlockState::Downloaded {
                return false;
            }
            i = i + 1;
        }
        true
    }
}

impl PeerConnection {
    /// Takes the step that needs nothing from the peer: expresses interest,
    /// opens the window of requests, or asks for the peer's next message.
    pub fn proceed(&mut self, download: &mut PieceDownload) -> (r: Result<Action, PeerError>)
        ensures
            final(download).fits() == old(download).fits(),
            old(download).well_formed() ==> final(download).well_formed(),
            final(download).size() == old(download).size(),
            final(self).torrent == old(self).torrent,
            final(self).peer_id == old(self).peer_id,
            engine_of(*final(self), *final(download)) == after_proceed(
                engine_of(*old(self), *old(download)),
            ).engine,
            is_step(r, after_proceed(engine_of(*old(self), *old(download))).result),
    {
        if !download.is_fit() {
            return Err(PeerError::InvalidDownload);
        }
        match self.state {
            PeerConnectionState::Connected | PeerConnectionState::WaitingForHandshake => Err(
                PeerError::InvalidState,
            ),
            PeerConnectionState::ReadyToExpressInterest => {
                self.state = PeerConnectionState::WaitingForUnchoke;
                Ok(Action::Send(interested()))
            },
            PeerConnectionState::ReadyToRequest => {
                let messages = download.open_window();
                self.state = PeerConnectionState::GettingPieces;
                Ok(Action::Send(messages))
            },
            _ => Ok(Action::Receive),
        }
    }

    /// Takes the step that the peer's message `message` calls for.
    pub fn handle_message(&mut self, download: &mut PieceDownload, message: &PeerMessage) -> (r:
        Result<Action, PeerError>)
        ensures
            final(download).fits() == old(download).fits(),
            old(download).well_formed() ==> final(download).well_formed(),
            final(download).size() == old(download).size(),
            final(self).torrent == old(self).torrent,
            final(self).peer_id == old(self).peer_id,
            engine_of(*final(self), *final(download)) == after_message(
                engine_of(*old(self), *old(download)),
                message@,
            ).engine,
            is_step(r, after_message(engine_of(*old(self), *old(download)), message@).result),
    {
        if !download.is_fit() {
            return Err(PeerError::InvalidDownload);
        }
        match self.state {
            PeerConnectionState::WaitingForBitfield => match message {
                PeerMessage::Bitfield(_) => {
                    self.state = PeerConnectionState::WaitingForUnchoke;
                    Ok(Action::Send(interested()))
                },
                _ => Err(PeerError::UnexpectedMessage),
            },
            PeerConnectionState::WaitingForUnchoke => match message {
                PeerMessage::Unchoke => {
                    let messages = download.open_window();
                    self.state = PeerConnectionState::GettingPieces;
                    Ok(Action::Send(messages))
                },
                _ => Ok(Action::Receive),
            },
            PeerConnectionState::GettingPieces => match message {
                PeerMessage::Choke => Err(PeerError::Choked),
                PeerMessage::Piece { index, begin, block } => {
                    if *index as usize != download.piece_index {
                        return Ok(Action::Receive);
                    }
                    if !download.accepts(*begin, block.as_slice()) {
                        return Err(PeerError::InvalidBlock);
                    }
                    download.put_block(*begin, block.as_slice());
                    match download.next_unrequested() {
                        Some(next) => {
                            let request = download.request(next);
                            download.block_states[next] = BlockState::Requested;
                            let mut messages: Vec<PeerMessage> = Vec::new();
                            messages.push(request);
                            proof {
                                assert(message_views(messages@) =~= seq![request@]);
                            }
                            Ok(Action::Send(messages))
                        },
                        None => {
                            if download.is_complete() {
                                self.state = PeerConnectionState::ReadyToRequest;
                                Ok(Action::Complete)
                            } else {
                                Ok(Action::Receive)
                            }
                        },
                    }
                },
                _ => Ok(Action::Receive),
            },
            _ => Err(PeerError::InvalidState),
        }
    }
}

/// The one message `Interested`.
pub fn interested() -> (messages: Vec<PeerMessage>)
    ensures
        message_views(messages@) == seq![Message::Interested],
{
    let mut messages: Vec<PeerMessage> = Vec::new();
    messages.push(PeerMessage::Interested);
    assert(message_views(messages@) =~= seq![Message::Interested]);
    messages
}

/// The digest that the torrent expects of the piece `index`: slot `index` of
/// `pieces`.
pub open spec fn expected_digest(pieces: Seq<u8>, index: nat) -> Seq<u8> {
    pieces.subrange(20 * (index as int), 20 * (index as int) + 20)
}

/// The byte strings `parts`, one after the other.
pub open spec fn concat(parts: Seq<Seq<u8>>) -> Seq<u8>
    decreases parts.len(),
{
    if parts.len() == 0 {
        Seq::empty()
    } else {
        concat(parts.drop_last()) + parts.last()
    }
}

impl PeerConnection {
    /// Whether `digest` is the digest that the torrent expects of the piece
    /// `piece_index`.
    pub fn check_digest(&self, piece_index: usize, digest: &[u8]) -> (r: Result<(), PeerError>)
        ensures
            match r {
                Ok(_) => {
                    &&& 20 * (piece_index + 1) <= self.torrent.info.pieces@.len()
                    &&& digest@ == expected_digest(self.torrent.info.pieces@, piece_index as nat)
                },
                Err(e) => if 20 * (piece_index + 1) <= self.torrent.info.pieces@.len() {
                    e == PeerError::IncorrectPieceHash && digest@ != expected_digest(
                        self.torrent.info.pieces@,
                        piece_index as nat,
                    )
                } else {
                    e == PeerError::InvalidPiece
                },
            },
    {
        let hashes = self.torrent.info.piece_hashes();
        if piece_index >= hashes.len() {
            return Err(PeerError::InvalidPiece);
        }
        let piece_hash = hex_encode(digest);
        let same = piece_hash == hashes[piece_index];
        proof {
            let expected = expected_digest(self.torrent.info.pieces@, piece_index as nat);
            assert(hashes@[piece_index as int]@ == hex_chars(expected));
            if same {
                lemma_hex_injective(digest@, expected);
            }
        }
        if same {
            Ok(())
        } else {
            Err(PeerError::IncorrectPieceHash)
        }
    }

    /// Checks the piece in the buffer against the digest that the torrent
    /// expects, and hands the piece out when its SHA-1 digest is that one.
    pub fn finish_piece(&self, download: PieceDownload) -> (r: Result<Vec<u8>, PeerError>)
        ensures
            match r {
                Ok(piece) => {
                    &&& 20 * (download.piece_index + 1) <= self.torrent.info.pieces@.len()
                    &&& sha1_digest(download.piece@) == expected_digest(
                        self.torrent.info.pieces@,
                        download.piece_index as nat,
                    )
                    &&& piece@ == download.piece@
                },
                Err(e) => if 20 * (download.piece_index + 1) <= self.torrent.info.pieces@.len() {
                    e == PeerError::IncorrectPieceHash && sha1_digest(download.piece@)
                        != expected_digest(self.torrent.info.pieces@, download.piece_index as nat)
                } else {
                    e == PeerError::InvalidPiece
                },
            },
    {
        let digest = sha1(download.piece.as_slice());
        match self.check_digest(download.piece_index, digest.as_slice()) {
            Ok(_) => Ok(download.piece),
            Err(e) => Err(e),
        }
    }

    /// Opens a connection for `torrent`: the handshake to send to the peer,
    /// and the connection that waits for the peer's handshake.
    pub fn connect(torrent: Torrent) -> (r: Result<(PeerConnection, Vec<u8>), PeerError>)
        ensures
            match r {
                Ok((connection, bytes)) => {
                    &&& torrent.info.well_formed()
                    &&& connection.torrent == torrent
                    &&& connection.state == PeerConnectionState::WaitingForHandshake
                    &&& connection.peer_id is None
                    &&& bytes@ == handshake_bytes(info_hash_of(torrent@), PEER_ID.spec_bytes())
                },
                Err(e) => !torrent.info.well_formed() && e == PeerError::InvalidTorrent,
            },
    {
        let mut connection = PeerConnection::new(torrent);
        match connection.send_handshake() {
            Ok(bytes) => Ok((connection, bytes)),
            Err(e) => Err(e),
        }
    }

    /// Starts the fetching of the piece `piece_index`: its blocks and buffer,
    /// and the first thing to do for it.
    pub fn download_piece(&mut self, piece_index: usize) -> (r: Result<
        (PieceDownload, Action),
        PeerError,
    >)
        ensures
            final(self).torrent == old(self).torrent,
            final(self).peer_id == old(self).peer_id,
            match old(self).start_error(piece_index) {
                Some(e) => r matches Err(f) && f == e && final(self).state == old(self).state,
                None => {
                    &&& r matches Ok((download, action))
                    &&& download.well_formed()
                    &&& engine_of(*final(self), download) == after_proceed(
                        old(self).fresh(piece_index),
                    ).engine
                    &&& is_step(Ok(action), after_proceed(old(self).fresh(piece_index)).result)
                },
            },
    {
        let mut download = match self.start_piece(piece_index) {
            Ok(download) => download,
            Err(e) => {
                return Err(e);
            },
        };
        match self.proceed(&mut download) {
            Ok(action) => Ok((download, action)),
            Err(e) => Err(e),
        }
    }
}

/// The payloads of the first `k` blocks of a piece, one after the other, are
/// the start of the buffer, when those blocks are marked as downloaded and
/// their payloads stand in place.
pub proof fn lemma_downloaded_prefix(download: PieceDownload, k: nat)
    requires
        download.well_formed(),
        k <= download.block_states@.len(),
        forall|i: int|
            0 <= i < k ==> #[trigger] download.block_states@[i] == BlockState::Downloaded
                && download.in_place@[i],
    ensures
        k < download.block_states@.len() ==> concat(download.received@.subrange(0, k as int))
            == download.piece@.subrange(0, k * BLOCK_LEN),
        k == download.block_states@.len() ==> concat(download.received@.subrange(0, k as int))
            == download.piece@,
    decreases k,
{
    let parts = download.received@.subrange(0, k as int);
    if k == 0 {
        assert(download.piece@.subrange(0, 0) =~= Seq::<u8>::empty());
    } else {
        let j = (k - 1) as nat;
        lemma_downloaded_prefix(download, j);
        lemma_block_bounds(download.size(), j);
        assert(download.block_states@[j as int] == BlockState::Downloaded);
        assert(download.in_place@[j as int]);
        assert(parts.drop_last() =~= download.received@.subrange(0, j as int));
        assert(parts.last() == download.received@[j as int]);
        let end = j * BLOCK_LEN + block_size_of(download.size(), j);
        assert(download.piece@.subrange(0, j * BLOCK_LEN) + download.piece@.subrange(
            j * BLOCK_LEN,
            end as int,
        ) =~= download.piece@.subrange(0, end as int));
        if k == download.block_states@.len() {
            assert(download.piece@.subrange(0, end as int) =~= download.piece@);
        }
    }
}

/// When every block of a piece is marked as downloaded and each payload was
/// put at the offset of its block, the payloads that were received for the
/// blocks, one after the other in the order of the blocks, are the buffer.
/// A payload put elsewhere, such as one at offset 1, lies across two blocks,
/// and the buffer is then not made of the payloads.
pub proof fn lemma_complete_piece(download: PieceDownload)
    requires
        download.well_formed(),
        download.complete(),
        download.all_in_place(),
    ensures
        concat(download.received@) == download.piece@,
{
    lemma_downloaded_prefix(download, download.block_states@.len());
    assert(download.received@.subrange(0, download.block_states@.len() as int)
        =~= download.received@);
}

/// The byte strings that `pieces` hold.
pub open spec fn piece_views(pieces: Seq<Vec<u8>>) -> Seq<Seq<u8>> {
    Seq::new(pieces.len(), |i: int| pieces[i]@)
}

/// The payload that the pieces `pieces` make: one after the other, in the
/// order of their indices.
pub fn assemble(pieces: &Vec<Vec<u8>>) -> (output: Vec<u8>)
    ensures
        output@ == concat(piece_views(pieces@)),
{
    let mut output: Vec<u8> = Vec::new();
    let mut i: usize = 0;
    while i < pieces.len()
        invariant
            i <= pieces@.len(),
            output@ == concat(piece_views(pieces@).subrange(0, i as int)),
        decreases pieces@.len() - i,
    {
        output.extend_from_slice(pieces[i].as_slice());
        proof {
            let next = piece_views(pieces@).subrange(0, i + 1);
            assert(next.drop_last() =~= piece_views(pieces@).subrange(0, i as int));
            assert(next.last() == pieces@[i as int]@);
            assert(output@ =~= concat(next));
        }
        i = i + 1;
    }
    assert(piece_views(pieces@).subrange(0, i as int) =~= piece_views(pieces@));
    output
}

} // verus!
