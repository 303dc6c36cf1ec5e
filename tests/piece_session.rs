use bittorrent_core::bencode::{encode, Value};
use bittorrent_core::metainfo::Meta;
use bittorrent_core::peers::{PeerMessage, PeerMessageTag};
use bittorrent_core::session::{
    check_handshake, handshake, piece_verdict, remote_peer_id_hex, Phase, PieceSession, SessionAction,
    SessionError,
};
use sha1::{Digest, Sha1};

const PEER_ID: &[u8; 20] = b"00112233445566778899";

fn piece_bytes(n: usize) -> Vec<u8> {
    (0..n).map(|i| (i % 251) as u8).collect()
}

fn session_for(piece: &[u8]) -> PieceSession {
    let expected = Sha1::digest(piece).to_vec();
    PieceSession::new(vec![7; 20], PEER_ID.to_vec(), 3, piece.len(), expected)
}

fn reply_handshake(info_hash: &[u8], id: &[u8]) -> Vec<u8> {
    let mut r = vec![19];
    r.extend_from_slice(b"BitTorrent protocol");
    r.extend_from_slice(&[0; 8]);
    r.extend_from_slice(info_hash);
    r.extend_from_slice(id);
    r
}

fn piece_frame(index: u32, offset: u32, block: &[u8]) -> PeerMessage {
    let mut payload = index.to_be_bytes().to_vec();
    payload.extend_from_slice(&offset.to_be_bytes());
    payload.extend_from_slice(block);
    PeerMessage { tag: PeerMessageTag::Piece, payload }
}

fn frame(tag: PeerMessageTag) -> PeerMessage {
    PeerMessage { tag, payload: vec![] }
}

fn expect_request(action: SessionAction, index: u32, offset: u32, size: u32) {
    match action {
        SessionAction::Send(m) => {
            assert_eq!(m.tag, PeerMessageTag::Request);
            let mut p = index.to_be_bytes().to_vec();
            p.extend_from_slice(&offset.to_be_bytes());
            p.extend_from_slice(&size.to_be_bytes());
            assert_eq!(m.payload, p);
        }
        other => panic!("expected a request, got {:?}", other),
    }
}

#[test]
fn handshake_bytes_exact() {
    let h = handshake(&[0xAA; 20], PEER_ID);
    assert_eq!(h.len(), 68);
    assert_eq!(h[0], 19);
    assert_eq!(&h[1..20], b"BitTorrent protocol");
    assert_eq!(&h[20..28], &[0; 8]);
    assert_eq!(&h[28..48], &[0xAA; 20]);
    assert_eq!(&h[48..68], PEER_ID);
}

#[test]
fn handshake_checks() {
    let reply = reply_handshake(&[1; 20], &[0xAB; 20]);
    assert_eq!(check_handshake(&reply, &[1; 20]), Ok(vec![0xAB; 20]));
    assert_eq!(remote_peer_id_hex(&reply, &[1; 20]), Ok("ab".repeat(20)));
    assert_eq!(check_handshake(&reply, &[2; 20]), Err(SessionError::HandshakeMismatch));
    assert_eq!(check_handshake(&reply[..67], &[1; 20]), Err(SessionError::HandshakeMismatch));
    let mut bad_name = reply.clone();
    bad_name[5] = b'X';
    assert_eq!(check_handshake(&bad_name, &[1; 20]), Err(SessionError::HandshakeMismatch));
}

#[test]
fn full_piece_download() {
    let piece = piece_bytes(20000);
    let mut s = session_for(&piece);
    assert_eq!(s.handshake().len(), 68);
    assert_eq!(s.on_handshake(&reply_handshake(&[7; 20], &[5; 20])), Ok(vec![5; 20]));
    assert_eq!(s.phase, Phase::AwaitBitfield);
    match s.on_frame(PeerMessage { tag: PeerMessageTag::Bitfield, payload: vec![0xff] }) {
        Ok(SessionAction::Send(m)) => assert_eq!(m, frame(PeerMessageTag::Interested)),
        other => panic!("unexpected {:?}", other),
    }
    assert!(matches!(s.on_frame(frame(PeerMessageTag::Heartbeat)), Ok(SessionAction::Wait)));
    expect_request(s.on_frame(frame(PeerMessageTag::Unchoke)).unwrap(), 3, 0, 16384);
    expect_request(s.on_frame(piece_frame(3, 0, &piece[..16384])).unwrap(), 3, 16384, 20000 - 16384);
    match s.on_frame(piece_frame(3, 16384, &piece[16384..])) {
        Ok(SessionAction::Complete(d)) => assert_eq!(d, piece),
        other => panic!("unexpected {:?}", other),
    }
    assert_eq!(s.phase, Phase::Done);
}

#[test]
fn hash_mismatch_gives_no_piece() {
    let piece = piece_bytes(100);
    let mut s = PieceSession::new(vec![7; 20], PEER_ID.to_vec(), 0, 100, vec![0; 20]);
    s.on_handshake(&reply_handshake(&[7; 20], &[5; 20])).unwrap();
    s.on_frame(frame(PeerMessageTag::Bitfield)).unwrap();
    expect_request(s.on_frame(frame(PeerMessageTag::Unchoke)).unwrap(), 0, 0, 100);
    assert!(matches!(
        s.on_frame(piece_frame(0, 0, &piece)),
        Err(SessionError::PieceHashMismatch)
    ));
}

#[test]
fn session_rejects_out_of_turn() {
    let piece = piece_bytes(100);
    let mut s = session_for(&piece);
    assert!(matches!(s.on_frame(frame(PeerMessageTag::Bitfield)), Err(SessionError::UnexpectedTag)));
    let mut s = session_for(&piece);
    s.on_handshake(&reply_handshake(&[7; 20], &[5; 20])).unwrap();
    assert!(matches!(s.on_frame(frame(PeerMessageTag::Unchoke)), Err(SessionError::UnexpectedTag)));
    let mut s = session_for(&piece);
    s.on_handshake(&reply_handshake(&[7; 20], &[5; 20])).unwrap();
    s.on_frame(frame(PeerMessageTag::Bitfield)).unwrap();
    s.on_frame(frame(PeerMessageTag::Unchoke)).unwrap();
    assert!(matches!(
        s.on_frame(piece_frame(3, 16384, &piece)),
        Err(SessionError::BlockOutOfOrder)
    ));
    let mut s = session_for(&piece);
    assert_eq!(s.on_handshake(&reply_handshake(&[8; 20], &[5; 20])), Err(SessionError::HandshakeMismatch));
}

#[test]
fn piece_verdict_gate() {
    assert_eq!(piece_verdict(vec![1, 2], &[9; 20], &[9; 20]), Ok(vec![1, 2]));
    assert_eq!(piece_verdict(vec![1, 2], &[9; 20], &[8; 20]), Err(SessionError::PieceHashMismatch));
}

#[test]
fn session_from_torrent() {
    let piece0 = piece_bytes(32768);
    let piece1 = piece_bytes(1000);
    let mut pieces = Sha1::digest(&piece0).to_vec();
    pieces.extend_from_slice(&Sha1::digest(&piece1));
    let info = Value::Dictionary(vec![
        (b"length".to_vec(), Value::Integer(33768)),
        (b"name".to_vec(), Value::ByteString(b"f".to_vec())),
        (b"piece length".to_vec(), Value::Integer(32768)),
        (b"pieces".to_vec(), Value::ByteString(pieces)),
    ]);
    let info_hash = Sha1::digest(&encode(&info)).to_vec();
    let bytes = encode(&Value::Dictionary(vec![
        (b"announce".to_vec(), Value::ByteString(b"http://t".to_vec())),
        (b"info".to_vec(), info),
    ]));
    let meta = Meta::from_bytes(&bytes).unwrap();
    let s = meta.piece_session(PEER_ID, 1).unwrap();
    assert_eq!(s.info_hash, info_hash);
    assert_eq!(s.piece_size, 1000);
    assert_eq!(s.expected_hash, Sha1::digest(&piece1).to_vec());
    assert!(meta.piece_session(PEER_ID, 2).is_none());
    let url = meta.announce_url("00112233445566778899", 6881);
    assert!(url.starts_with("http://t?peer_id=00112233445566778899&port=6881"));
    assert!(url.ends_with(&format!("&info_hash={}", bittorrent_core::tracker::url_encode(&info_hash))));
}
