//! The peer session: the 68-byte handshake, then the leecher's exchange for
//! one piece, as a machine that takes each frame read and says what to do.
//! The caller owns the connection: it sends what the machine asks for,
//! hands back each frame, and writes the piece only when it is complete.

use crate::hashing::{base16_lower, hex_lower, sha1_digest, sha1_of};
use crate::metainfo::{piece_count_of, piece_size_of, Meta};
use crate::peers::{request_payload, PeerMessage, PeerMessageTag, Request};
use crate::wire::{be_u32_value, read_u32_be};
use vstd::prelude::*;
use vstd::slice::slice_to_vec;

verus! {

/// The largest block requested at once.
pub const BLOCK_SIZE: usize = 16384;

/// Why a session ends before its piece is written.
#[derive(Debug, Clone, Copy, PartialEq, Eq, Structural)]
pub enum SessionError {
    /// The connection could not be opened.
    Dial,
    /// The peer's handshake is malformed or names another torrent.
    HandshakeMismatch,
    /// A frame that this step does not expect.
    UnexpectedTag,
    /// The assembled piece does not have the expected digest.
    PieceHashMismatch,
    /// A block that is not the one requested.
    BlockOutOfOrder,
    /// The peer went quiet for too long.
    Timeout,
}

/// The bytes `BitTorrent protocol`.
pub open spec fn protocol_name() -> Seq<u8> {
    seq![66u8, 105, 116, 84, 111, 114, 114, 101, 110, 116, 32, 112, 114, 111, 116, 111, 99, 111, 108]
}

/// The handshake: the name's length, the name, eight zero bytes, the info
/// digest and the peer id.
pub open spec fn handshake_bytes(info_hash: Seq<u8>, peer_id: Seq<u8>) -> Seq<u8> {
    seq![19u8] + protocol_name() + Seq::new(8, |i: int| 0u8) + info_hash + peer_id
}

/// Whether a peer's handshake is well formed and names our torrent.
pub open spec fn handshake_accepted(reply: Seq<u8>, info_hash: Seq<u8>) -> bool {
    &&& reply.len() == 68
    &&& reply[0] == 19
    &&& reply.subrange(1, 20) == protocol_name()
    &&& reply.subrange(28, 48) == info_hash
}

/// The number of blocks of a piece: its size over the block size, rounded up.
pub open spec fn block_count_of(size: nat) -> nat {
    if size % 16384 == 0 {
        size / 16384
    } else {
        size / 16384 + 1
    }
}

/// The size of block `k` of a piece: a full block but for the last one.
pub open spec fn block_size_of(size: nat, k: nat) -> nat {
    if (k + 1) * 16384 <= size {
        16384
    } else {
        (size - k * 16384) as nat
    }
}

/// Whether a `Piece` payload is block `k` of piece `index`: the index, the
/// offset `k * 16384`, then exactly the block's bytes.
pub open spec fn block_reply_ok(payload: Seq<u8>, index: u32, size: nat, k: nat) -> bool {
    &&& payload.len() >= 8
    &&& be_u32_value(payload.subrange(0, 4)) == index
    &&& be_u32_value(payload.subrange(4, 8)) == k * 16384
    &&& payload.len() - 8 == block_size_of(size, k)
}

/// Whether a step ended in error `e`.
pub open spec fn fails_with(r: Result<SessionAction, SessionError>, e: SessionError) -> bool {
    r matches Err(x) && x == e
}

/// Where a session stands.
#[derive(Debug, Clone, Copy, PartialEq, Eq, Structural)]
pub enum Phase {
    AwaitHandshake,
    AwaitBitfield,
    AwaitUnchoke,
    Requesting,
    Done,
}

/// What the caller does after a frame.
#[derive(Debug)]
pub enum SessionAction {
    /// Read the next frame.
    Wait,
    /// Send this message, then read the next frame.
    Send(PeerMessage),
    /// The piece is complete and its digest checked: write it out.
    Complete(Vec<u8>),
}

/// The state of a download of one piece from one peer.
#[derive(Debug)]
pub struct PieceSession {
    pub info_hash: Vec<u8>,
    pub peer_id: Vec<u8>,
    pub piece_index: u32,
    pub piece_size: usize,
    pub expected_hash: Vec<u8>,
    pub phase: Phase,
    pub block: usize,
    pub data: Vec<u8>,
}

/// Facts about blocks: each block lies inside the piece, and the blocks
/// before `k` fill exactly `k` full block sizes.
pub proof fn lemma_blocks(size: nat, k: nat)
    requires
        size > 0,
        k < block_count_of(size),
    ensures
        k * 16384 < size,
        0 < block_size_of(size, k) <= 16384,
        k * 16384 + block_size_of(size, k) <= size,
        k + 1 == block_count_of(size) <==> k * 16384 + block_size_of(size, k) == size,
        k + 1 < block_count_of(size) ==> block_size_of(size, k) == 16384,
{
    let q = size / 16384;
    let r = size % 16384;
    assert(size == q * 16384 + r && 0 <= r < 16384);
    if r == 0 {
        assert(k + 1 <= q);
        assert((k + 1) * 16384 <= q * 16384) by (nonlinear_arith)
            requires
                k + 1 <= q,
        ;
    } else {
        assert(k <= q);
        assert(k * 16384 <= q * 16384) by (nonlinear_arith)
            requires
                k <= q,
        ;
        if k < q {
            assert((k + 1) * 16384 <= q * 16384) by (nonlinear_arith)
                requires
                    k + 1 <= q,
            ;
        }
    }
}

/// The handshake this client sends.
pub fn handshake(info_hash: &[u8], peer_id: &[u8]) -> (r: Vec<u8>)
    requires
        info_hash@.len() == 20,
        peer_id@.len() == 20,
    ensures
        r@ == handshake_bytes(info_hash@, peer_id@),
        r@.len() == 68,
{
    let mut out: Vec<u8> = vec![19u8, 66, 105, 116, 84, 111, 114, 114, 101, 110, 116, 32, 112, 114, 111, 116, 111, 99, 111, 108, 0, 0, 0, 0, 0, 0, 0, 0];
    let mut hash = slice_to_vec(info_hash);
    let mut id = slice_to_vec(peer_id);
    out.append(&mut hash);
    out.append(&mut id);
    assert(out@ =~= handshake_bytes(info_hash@, peer_id@));
    out
}

/// Checks a peer's handshake against our info digest and returns the
/// peer's 20-byte id.
pub fn check_handshake(reply: &[u8], info_hash: &[u8]) -> (r: Result<Vec<u8>, SessionError>)
    requires
        info_hash@.len() == 20,
    ensures
        r is Ok <==> handshake_accepted(reply@, info_hash@),
        r matches Ok(id) ==> id@ == reply@.subrange(48, 68),
        r matches Err(e) ==> e == SessionError::HandshakeMismatch,
{
    if reply.len() != 68 || reply[0] != 19 {
        return Err(SessionError::HandshakeMismatch);
    }
    let name: Vec<u8> = vec![66u8, 105, 116, 84, 111, 114, 114, 101, 110, 116, 32, 112, 114, 111, 116, 111, 99, 111, 108];
    let mut i: usize = 0;
    while i < 19
        invariant
            i <= 19,
            reply@.len() == 68,
            name@ == protocol_name(),
            forall|k: int| 0 <= k < i ==> reply@[1 + k] == protocol_name()[k],
        decreases 19 - i,
    {
        if reply[1 + i] != name[i] {
            assert(reply@.subrange(1, 20)[i as int] != protocol_name()[i as int]);
            return Err(SessionError::HandshakeMismatch);
        }
        i += 1;
    }
    assert(reply@.subrange(1, 20) =~= protocol_name());
    let mut j: usize = 0;
    while j < 20
        invariant
            j <= 20,
            reply@.len() == 68,
            info_hash@.len() == 20,
            forall|k: int| 0 <= k < j ==> reply@[28 + k] == info_hash@[k],
        decreases 20 - j,
    {
        if reply[28 + j] != info_hash[j] {
            assert(reply@.subrange(28, 48)[j as int] != info_hash@[j as int]);
            return Err(SessionError::HandshakeMismatch);
        }
        j += 1;
    }
    assert(reply@.subrange(28, 48) =~= info_hash@);
    Ok(slice_to_vec(&reply[48..68]))
}

/// The peer id of an accepted handshake, as lowercase hexadecimal text.
pub fn remote_peer_id_hex(reply: &[u8], info_hash: &[u8]) -> (r: Result<String, SessionError>)
    requires
        info_hash@.len() == 20,
    ensures
        r is Ok <==> handshake_accepted(reply@, info_hash@),
        r matches Ok(t) ==> t@ == hex_lower(reply@.subrange(48, 68)),
        r matches Err(e) ==> e == SessionError::HandshakeMismatch,
{
    match check_handshake(reply, info_hash) {
        Ok(id) => Ok(base16_lower(id.as_slice())),
        Err(e) => Err(e),
    }
}

/// The verdict on an assembled piece, given its digest: the piece when the
/// digest is the expected one.
pub fn piece_verdict(data: Vec<u8>, digest: &[u8], expected: &[u8]) -> (r: Result<Vec<u8>, SessionError>)
    ensures
        r is Ok <==> digest@ == expected@,
        r matches Ok(d) ==> d@ == data@,
        r matches Err(e) ==> e == SessionError::PieceHashMismatch,
{
    if crate::bencode::bytes_equal(digest, expected) {
        Ok(data)
    } else {
        Err(SessionError::PieceHashMismatch)
    }
}

impl PieceSession {
    /// What every state of a session keeps.
    pub open spec fn wf(&self) -> bool {
        &&& self.info_hash@.len() == 20
        &&& self.peer_id@.len() == 20
        &&& 0 < self.piece_size <= u32::MAX
        &&& self.phase == Phase::Requesting ==> self.block < block_count_of(self.piece_size as nat)
            && self.data@.len() == self.block * 16384
    }

    /// A session for piece `piece_index`, `piece_size` bytes long, whose
    /// digest should be `expected_hash`.
    pub fn new(info_hash: Vec<u8>, peer_id: Vec<u8>, piece_index: u32, piece_size: usize, expected_hash: Vec<u8>) -> (r: PieceSession)
        requires
            info_hash@.len() == 20,
            peer_id@.len() == 20,
            0 < piece_size <= u32::MAX,
        ensures
            r.wf(),
            r.phase == Phase::AwaitHandshake,
            r.info_hash@ == info_hash@,
            r.peer_id@ == peer_id@,
            r.piece_index == piece_index,
            r.piece_size == piece_size,
            r.expected_hash@ == expected_hash@,
    {
        PieceSession {
            info_hash,
            peer_id,
            piece_index,
            piece_size,
            expected_hash,
            phase: Phase::AwaitHandshake,
            block: 0,
            data: Vec::new(),
        }
    }

    /// The handshake to send first.
    pub fn handshake(&self) -> (r: Vec<u8>)
        requires
            self.wf(),
        ensures
            r@ == handshake_bytes(self.info_hash@, self.peer_id@),
    {
        handshake(self.info_hash.as_slice(), self.peer_id.as_slice())
    }

    /// Takes the peer's handshake; on success the session waits for the
    /// bitfield and the peer's id is returned.
    pub fn on_handshake(&mut self, reply: &[u8]) -> (r: Result<Vec<u8>, SessionError>)
        requires
            old(self).wf(),
            old(self).phase == Phase::AwaitHandshake,
        ensures
            final(self).wf(),
            r is Ok <==> handshake_accepted(reply@, old(self).info_hash@),
            r matches Ok(id) ==> id@ == reply@.subrange(48, 68) && final(self).phase
                == Phase::AwaitBitfield,
            r matches Err(e) ==> e == SessionError::HandshakeMismatch && final(self).phase
                == Phase::Done,
            final(self).info_hash == old(self).info_hash,
            final(self).peer_id == old(self).peer_id,
            final(self).piece_index == old(self).piece_index,
            final(self).piece_size == old(self).piece_size,
            final(self).expected_hash == old(self).expected_hash,
    {
        let r = check_handshake(reply, self.info_hash.as_slice());
        if r.is_ok() {
            self.phase = Phase::AwaitBitfield;
        } else {
            self.phase = Phase::Done;
        }
        r
    }

    /// The request for block `k` of the piece.
    fn request_block(&self, k: usize) -> (r: PeerMessage)
        requires
            self.wf(),
            k < block_count_of(self.piece_size as nat),
        ensures
            r.tag == PeerMessageTag::Request,
            r.payload@ == request_payload(
                self.piece_index,
                (k * 16384) as u32,
                block_size_of(self.piece_size as nat, k as nat) as u32,
            ),
    {
        proof {
            lemma_blocks(self.piece_size as nat, k as nat);
        }
        let offset = k * BLOCK_SIZE;
        let size = if self.piece_size - offset >= BLOCK_SIZE {
            BLOCK_SIZE
        } else {
            self.piece_size - offset
        };
        let request = Request::new(self.piece_index, offset as u32, size as u32);
        PeerMessage { tag: PeerMessageTag::Request, payload: request.as_bytes_mute() }
    }
    /// Takes one frame read from the peer and says what to do next. Any
    /// frame out of turn ends the session with an error; a completed piece
    /// is handed out only when its digest is the expected one.
    pub fn on_frame(&mut self, msg: PeerMessage) -> (r: Result<SessionAction, SessionError>)
        requires
            old(self).wf(),
        ensures
            final(self).wf(),
            final(self).info_hash == old(self).info_hash,
            final(self).peer_id == old(self).peer_id,
            final(self).piece_index == old(self).piece_index,
            final(self).piece_size == old(self).piece_size,
            final(self).expected_hash == old(self).expected_hash,
            old(self).phase == Phase::AwaitHandshake || old(self).phase == Phase::Done
                ==> final(self).phase == Phase::Done && fails_with(r, SessionError::UnexpectedTag),
            old(self).phase == Phase::AwaitBitfield ==> if msg.tag == PeerMessageTag::Bitfield {
                &&& final(self).phase == Phase::AwaitUnchoke
                &&& r matches Ok(SessionAction::Send(m)) && m.tag == PeerMessageTag::Interested
                    && m.payload@.len() == 0
            } else {
                final(self).phase == Phase::Done && fails_with(r, SessionError::UnexpectedTag)
            },
            old(self).phase == Phase::AwaitUnchoke ==> if msg.tag == PeerMessageTag::Unchoke {
                &&& final(self).phase == Phase::Requesting
                &&& final(self).block == 0
                &&& final(self).data@.len() == 0
                &&& r matches Ok(SessionAction::Send(m)) && m.tag == PeerMessageTag::Request
                    && m.payload@ == request_payload(
                    old(self).piece_index,
                    0,
                    block_size_of(old(self).piece_size as nat, 0) as u32,
                )
            } else if msg.tag == PeerMessageTag::Heartbeat {
                final(self).phase == Phase::AwaitUnchoke && r matches Ok(SessionAction::Wait)
            } else {
                final(self).phase == Phase::Done && fails_with(r, SessionError::UnexpectedTag)
            },
            old(self).phase == Phase::Requesting ==> if msg.tag != PeerMessageTag::Piece {
                final(self).phase == Phase::Done && fails_with(r, SessionError::UnexpectedTag)
            } else if !block_reply_ok(
                msg.payload@,
                old(self).piece_index,
                old(self).piece_size as nat,
                old(self).block as nat,
            ) {
                final(self).phase == Phase::Done && fails_with(r, SessionError::BlockOutOfOrder)
            } else if old(self).block + 1 < block_count_of(old(self).piece_size as nat) {
                &&& final(self).phase == Phase::Requesting
                &&& final(self).block == old(self).block + 1
                &&& final(self).data@ == old(self).data@ + msg.payload@.subrange(
                    8,
                    msg.payload@.len() as int,
                )
                &&& r matches Ok(SessionAction::Send(m)) && m.tag == PeerMessageTag::Request
                    && m.payload@ == request_payload(
                    old(self).piece_index,
                    ((old(self).block + 1) * 16384) as u32,
                    block_size_of(old(self).piece_size as nat, (old(self).block + 1) as nat) as u32,
                )
            } else {
                let piece = old(self).data@ + msg.payload@.subrange(8, msg.payload@.len() as int);
                &&& final(self).phase == Phase::Done
                &&& piece.len() == old(self).piece_size
                &&& if sha1_of(piece) == old(self).expected_hash@ {
                    r matches Ok(SessionAction::Complete(d)) && d@ == piece
                } else {
                    fails_with(r, SessionError::PieceHashMismatch)
                }
            },
            r matches Ok(SessionAction::Complete(d)) ==> sha1_of(d@) == old(self).expected_hash@
                && d@.len() == old(self).piece_size,
    {
        let tag = msg.tag;
        match self.phase {
            Phase::AwaitBitfield => {
                if tag == PeerMessageTag::Bitfield {
                    self.phase = Phase::AwaitUnchoke;
                    Ok(SessionAction::Send(PeerMessage { tag: PeerMessageTag::Interested, payload: Vec::new() }))
                } else {
                    self.phase = Phase::Done;
                    Err(SessionError::UnexpectedTag)
                }
            },
            Phase::AwaitUnchoke => {
                if tag == PeerMessageTag::Unchoke {
                    self.phase = Phase::Requesting;
                    self.block = 0;
                    self.data = Vec::new();
                    Ok(SessionAction::Send(self.request_block(0)))
                } else if tag == PeerMessageTag::Heartbeat {
                    Ok(SessionAction::Wait)
                } else {
                    self.phase = Phase::Done;
                    Err(SessionError::UnexpectedTag)
                }
            },
            Phase::Requesting => {
                if tag != PeerMessageTag::Piece {
                    self.phase = Phase::Done;
                    return Err(SessionError::UnexpectedTag);
                }
                let size = self.piece_size;
                proof {
                    lemma_blocks(size as nat, self.block as nat);
                }
                let offset = self.block * BLOCK_SIZE;
                let block_size = if size - offset >= BLOCK_SIZE {
                    BLOCK_SIZE
                } else {
                    size - offset
                };
                let payload = msg.payload.as_slice();
                let fits = payload.len() >= 8 && read_u32_be(payload, 0) == self.piece_index
                    && read_u32_be(payload, 4) as u64 == offset as u64 && payload.len() - 8
                    == block_size;
                if !fits {
                    self.phase = Phase::Done;
                    return Err(SessionError::BlockOutOfOrder);
                }
                let mut bytes = slice_to_vec(&payload[8..payload.len()]);
                self.data.append(&mut bytes);
                let count = if size % BLOCK_SIZE == 0 {
                    size / BLOCK_SIZE
                } else {
                    size / BLOCK_SIZE + 1
                };
                if self.block + 1 < count {
                    self.block = self.block + 1;
                    assert(self.data@.len() == self.block * 16384) by (nonlinear_arith)
                        requires
                            self.data@.len() == offset + block_size,
                            offset == (self.block - 1) * 16384,
                            block_size == 16384,
                    ;
                    let next = self.request_block(self.block);
                    Ok(SessionAction::Send(next))
                } else {
                    self.phase = Phase::Done;
                    let digest = sha1_digest(self.data.as_slice());
                    let piece = slice_to_vec(self.data.as_slice());
                    match piece_verdict(piece, digest.as_slice(), self.expected_hash.as_slice()) {
                        Ok(d) => Ok(SessionAction::Complete(d)),
                        Err(e) => Err(e),
                    }
                }
            },
            _ => {
                self.phase = Phase::Done;
                Err(SessionError::UnexpectedTag)
            },
        }
    }
}

impl Meta {
    /// A session that downloads piece `index` of this torrent, or `None` when
    /// the torrent has no such piece, no digest for it, or the index or the
    /// piece length do not fit in 32 bits.
    pub fn piece_session(&self, peer_id: &[u8], index: usize) -> (r: Option<PieceSession>)
        requires
            self.wf(),
            peer_id@.len() == 20,
        ensures
            r is Some <==> index < piece_count_of(self.info.length as nat, self.info.piece_length as nat)
                && index < self.info.pieces@.len() / 20 && index <= u32::MAX && self.info.piece_length
                <= u32::MAX,
            r matches Some(s) ==> {
                &&& s.wf()
                &&& s.phase == Phase::AwaitHandshake
                &&& s.info_hash@ == sha1_of(crate::bencode::encoding(self.info_value@))
                &&& s.peer_id@ == peer_id@
                &&& s.piece_index == index
                &&& s.piece_size == piece_size_of(
                    self.info.length as nat,
                    self.info.piece_length as nat,
                    index as nat,
                )
                &&& s.expected_hash@ == self.info.pieces@.subrange(20 * index, 20 * index + 20)
            },
    {
        let count = self.piece_count();
        if index >= count || index >= self.info.pieces.len() / 20 || index > u32::MAX as usize
            || self.info.piece_length > u32::MAX as usize {
            return None;
        }
        let size = self.piece_length(index);
        let hashes = self.piece_hashes();
        let expected = slice_to_vec(hashes[index].as_slice());
        let info_hash = self.calculate_info_hash();
        Some(PieceSession::new(info_hash, slice_to_vec(peer_id), index as u32, size, expected))
    }
}

} // verus!
