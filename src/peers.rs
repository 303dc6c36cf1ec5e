//! The compact peers list, the peer message tags and the block request.

use crate::wire::{be_u16_value, be_u32_bytes, u32_be_bytes};
use vstd::prelude::*;

verus! {

/// A peer: an IPv4 address and a TCP port.
#[derive(Debug, Clone, Copy, PartialEq, Eq)]
pub struct Peer {
    pub ip_address: [u8; 4],
    pub port: u16,
}

/// The peers of a tracker response, in the order in which they came.
#[derive(Debug)]
pub struct PeersContainer {
    pub peers: Vec<Peer>,
}

/// Why a compact peers blob cannot be read.
#[derive(Debug, Clone, Copy, PartialEq, Eq, Structural)]
pub enum PeersError {
    /// The blob is not a whole number of 6-byte entries.
    Malformed,
}

/// Whether `p` is the peer that the 6 bytes at entry `i` of `blob` describe:
/// four address bytes, then the port, big-endian.
pub open spec fn peer_at(blob: Seq<u8>, i: int, p: Peer) -> bool {
    &&& p.ip_address@ == blob.subrange(6 * i, 6 * i + 4)
    &&& p.port == be_u16_value(blob[6 * i + 4], blob[6 * i + 5])
}

impl PeersContainer {
    /// Reads a compact peers blob, 6 bytes per peer.
    pub fn from_compact(blob: &[u8]) -> (r: Result<PeersContainer, PeersError>)
        ensures
            r is Err <==> blob@.len() % 6 != 0,
            r matches Ok(c) ==> c.peers@.len() == blob@.len() / 6 && forall|i: int|
                0 <= i < c.peers@.len() ==> #[trigger] peer_at(blob@, i, c.peers@[i]),
    {
        let total = blob.len();
        if total % 6 != 0 {
            return Err(PeersError::Malformed);
        }
        let n = total / 6;
        let mut peers: Vec<Peer> = Vec::new();
        let mut i: usize = 0;
        while i < n
            invariant
                i <= n,
                n == total / 6,
                total == blob@.len(),
                peers@.len() == i,
                forall|k: int| 0 <= k < i ==> #[trigger] peer_at(blob@, k, peers@[k]),
            decreases n - i,
        {
            assert(6 * i + 6 <= total) by (nonlinear_arith)
                requires
                    i < n,
                    n == total / 6,
            ;
            let at = 6 * i;
            let ip_address = [blob[at], blob[at + 1], blob[at + 2], blob[at + 3]];
            let port = (blob[at + 4] as u16) * 256 + (blob[at + 5] as u16);
            let peer = Peer { ip_address, port };
            assert(ip_address@ =~= blob@.subrange(6 * i, 6 * i + 4));
            peers.push(peer);
            i += 1;
        }
        Ok(PeersContainer { peers })
    }
}

/// The kind of a peer message.
#[derive(Debug, Clone, Copy, PartialEq, Eq, Structural)]
pub enum PeerMessageTag {
    Heartbeat,
    Unchoke,
    Interested,
    Bitfield,
    Request,
    Piece,
}

/// The byte that stands for a tag on the wire.
pub open spec fn tag_code(t: PeerMessageTag) -> u8 {
    match t {
        PeerMessageTag::Heartbeat => 0,
        PeerMessageTag::Unchoke => 1,
        PeerMessageTag::Interested => 2,
        PeerMessageTag::Bitfield => 5,
        PeerMessageTag::Request => 6,
        PeerMessageTag::Piece => 7,
    }
}

/// The tag that a wire byte stands for, if any.
pub open spec fn tag_of_code(b: u8) -> Option<PeerMessageTag> {
    if b == 0 {
        Some(PeerMessageTag::Heartbeat)
    } else if b == 1 {
        Some(PeerMessageTag::Unchoke)
    } else if b == 2 {
        Some(PeerMessageTag::Interested)
    } else if b == 5 {
        Some(PeerMessageTag::Bitfield)
    } else if b == 6 {
        Some(PeerMessageTag::Request)
    } else if b == 7 {
        Some(PeerMessageTag::Piece)
    } else {
        None
    }
}

impl PeerMessageTag {
    /// The wire byte of this tag.
    pub fn code(&self) -> (r: u8)
        ensures
            r == tag_code(*self),
            tag_of_code(r) == Some(*self),
    {
        match self {
            PeerMessageTag::Heartbeat => 0,
            PeerMessageTag::Unchoke => 1,
            PeerMessageTag::Interested => 2,
            PeerMessageTag::Bitfield => 5,
            PeerMessageTag::Request => 6,
            PeerMessageTag::Piece => 7,
        }
    }

    /// The tag of a wire byte; `None` for a byte that stands for no tag.
    pub fn from_code(b: u8) -> (r: Option<PeerMessageTag>)
        ensures
            r == tag_of_code(b),
    {
        match b {
            0 => Some(PeerMessageTag::Heartbeat),
            1 => Some(PeerMessageTag::Unchoke),
            2 => Some(PeerMessageTag::Interested),
            5 => Some(PeerMessageTag::Bitfield),
            6 => Some(PeerMessageTag::Request),
            7 => Some(PeerMessageTag::Piece),
            _ => None,
        }
    }
}

/// A peer message: its tag and its payload.
#[derive(Debug, Clone, PartialEq, Eq)]
pub struct PeerMessage {
    pub tag: PeerMessageTag,
    pub payload: Vec<u8>,
}

/// The payload of a block request: piece index, offset in the piece and
/// block length, each as four big-endian bytes.
pub open spec fn request_payload(index: u32, begin_offset: u32, length: u32) -> Seq<u8> {
    be_u32_bytes(index) + be_u32_bytes(begin_offset) + be_u32_bytes(length)
}

/// A request for one block of a piece.
pub struct Request {
    index: [u8; 4],
    begin_offset: [u8; 4],
    length: [u8; 4],
}

impl Request {
    /// The request's payload bytes.
    pub closed spec fn wire_bytes(&self) -> Seq<u8> {
        self.index@ + self.begin_offset@ + self.length@
    }

    /// A request for `length` bytes at `begin_offset` of piece `index`.
    pub fn new(index: u32, begin_offset: u32, length: u32) -> (r: Request)
        ensures
            r.wire_bytes() == request_payload(index, begin_offset, length),
    {
        Request {
            index: u32_be_bytes(index),
            begin_offset: u32_be_bytes(begin_offset),
            length: u32_be_bytes(length),
        }
    }

    /// The 12 payload bytes of the request.
    pub fn as_bytes_mute(&self) -> (r: Vec<u8>)
        ensures
            r@ == self.wire_bytes(),
    {
        let mut result: Vec<u8> = Vec::new();
        let mut k: usize = 0;
        while k < 4
            invariant
                k <= 4,
                result@ == self.index@.subrange(0, k as int),
            decreases 4 - k,
        {
            result.push(self.index[k]);
            k += 1;
            assert(result@ =~= self.index@.subrange(0, k as int));
        }
        k = 0;
        while k < 4
            invariant
                k <= 4,
                result@ == self.index@ + self.begin_offset@.subrange(0, k as int),
            decreases 4 - k,
        {
            result.push(self.begin_offset[k]);
            k += 1;
            assert(result@ =~= self.index@ + self.begin_offset@.subrange(0, k as int));
        }
        k = 0;
        while k < 4
            invariant
                k <= 4,
                result@ == self.index@ + self.begin_offset@ + self.length@.subrange(0, k as int),
            decreases 4 - k,
        {
            result.push(self.length[k]);
            k += 1;
            assert(result@ =~= self.index@ + self.begin_offset@ + self.length@.subrange(0, k as int));
        }
        result
    }
}

} // verus!
