use bittorrent_core::frame::{serialize_frame, FrameBuffer, StreamError};
use bittorrent_core::peers::{Peer, PeerMessage, PeerMessageTag, PeersContainer, PeersError, Request};
use bittorrent_core::tracker::{decimal_string, parse_tracker_response, tracker_url, url_encode, TrackerError};
use bittorrent_core::wire::{push_u32_be, read_u32_be, u32_be_bytes};

#[test]
fn url_encode_three_bytes() {
    assert_eq!(url_encode(&[0x12, 0x34, 0xAB]), "%12%34%ab");
}

#[test]
fn url_encode_every_byte() {
    let all: Vec<u8> = (0..=255u8).collect();
    let e = url_encode(&all);
    assert_eq!(e.len(), 3 * 256);
    for (i, byte) in all.iter().enumerate() {
        assert_eq!(&e[3 * i..3 * i + 3], format!("%{:02x}", byte));
    }
}

#[test]
fn decimal_text() {
    assert_eq!(decimal_string(0), "0");
    assert_eq!(decimal_string(6881), "6881");
    assert_eq!(decimal_string(u64::MAX), "18446744073709551615");
}

#[test]
fn tracker_url_exact() {
    let url = tracker_url("http://t.example/announce", &[0x12, 0x34, 0xab], "00112233445566778899", 6881, 92063);
    assert_eq!(
        url,
        "http://t.example/announce?peer_id=00112233445566778899&port=6881&uploaded=0&downloaded=0&left=92063&compact=1&info_hash=%12%34%ab"
    );
}

#[test]
fn tracker_url_form_encodes_peer_id() {
    let url = tracker_url("http://t", &[], "a b&c", 1, 0);
    assert_eq!(url, "http://t?peer_id=a+b%26c&port=1&uploaded=0&downloaded=0&left=0&compact=1&info_hash=");
}

#[test]
fn peers_decode_big_endian_ports() {
    let blob = [10, 0, 0, 1, 0x1A, 0xE1, 192, 168, 1, 2, 0xC8, 0xD5];
    let c = PeersContainer::from_compact(&blob).unwrap();
    assert_eq!(c.peers.len(), 2);
    assert_eq!(c.peers[0], Peer { ip_address: [10, 0, 0, 1], port: 6881 });
    assert_eq!(c.peers[1], Peer { ip_address: [192, 168, 1, 2], port: 51413 });
}

#[test]
fn peers_decode_empty_and_malformed() {
    assert_eq!(PeersContainer::from_compact(&[]).unwrap().peers.len(), 0);
    assert_eq!(PeersContainer::from_compact(&[1, 2, 3, 4, 5]).unwrap_err(), PeersError::Malformed);
    assert_eq!(PeersContainer::from_compact(&[0; 7]).unwrap_err(), PeersError::Malformed);
}

#[test]
fn tracker_response_parsed() {
    let mut body = b"d8:intervali1800e5:peers12:".to_vec();
    body.extend_from_slice(&[10, 0, 0, 1, 0x1A, 0xE1, 127, 0, 0, 1, 0, 80]);
    body.push(b'e');
    let r = parse_tracker_response(&body).unwrap();
    assert_eq!(r.interval, 1800);
    assert_eq!(r.peers.peers[1], Peer { ip_address: [127, 0, 0, 1], port: 80 });
}

#[test]
fn tracker_response_errors() {
    assert_eq!(parse_tracker_response(b"d8:intervali1800ee").unwrap_err(), TrackerError::Decode);
    assert_eq!(parse_tracker_response(b"d8:intervali1e5:peers5:abcdee").unwrap_err(), TrackerError::Decode);
    assert_eq!(parse_tracker_response(b"le").unwrap_err(), TrackerError::Decode);
    assert_eq!(parse_tracker_response(b"garbage").unwrap_err(), TrackerError::Decode);
}

#[test]
fn request_payload_bytes() {
    let r = Request::new(1, 16384, 0x01020304);
    assert_eq!(r.as_bytes_mute(), vec![0, 0, 0, 1, 0, 0, 0x40, 0, 1, 2, 3, 4]);
}

#[test]
fn big_endian_helpers() {
    assert_eq!(u32_be_bytes(0xDEADBEEF), [0xDE, 0xAD, 0xBE, 0xEF]);
    let mut v = vec![9];
    push_u32_be(&mut v, 258);
    assert_eq!(v, vec![9, 0, 0, 1, 2]);
    assert_eq!(read_u32_be(&v, 1), 258);
}

#[test]
fn tag_codes() {
    assert_eq!(PeerMessageTag::Bitfield.code(), 5);
    assert_eq!(PeerMessageTag::from_code(7), Some(PeerMessageTag::Piece));
    assert_eq!(PeerMessageTag::from_code(3), None);
}

#[test]
fn frame_serialize_exact() {
    let m = PeerMessage { tag: PeerMessageTag::Interested, payload: vec![] };
    assert_eq!(serialize_frame(&m), vec![0, 0, 0, 1, 2]);
    let m = PeerMessage { tag: PeerMessageTag::Piece, payload: vec![7, 8] };
    assert_eq!(serialize_frame(&m), vec![0, 0, 0, 3, 7, 7, 8]);
}

#[test]
fn frame_round_trip_with_keepalive() {
    let m = PeerMessage { tag: PeerMessageTag::Request, payload: vec![1, 2, 3, 4, 5] };
    let mut buf = FrameBuffer::new();
    buf.feed(&[0, 0, 0, 0]);
    buf.feed(&serialize_frame(&m));
    buf.feed(&[0, 0]);
    assert_eq!(buf.parse_frame(), Ok(Some(m)));
    assert_eq!(buf.parse_frame(), Ok(None));
    assert!(!buf.is_empty());
    assert_eq!(buf.finish(), Err(StreamError::ConnectionReset));
}

#[test]
fn frame_partial_then_complete() {
    let m = PeerMessage { tag: PeerMessageTag::Bitfield, payload: vec![0xff; 10] };
    let bytes = serialize_frame(&m);
    let mut buf = FrameBuffer::new();
    buf.feed(&bytes[..6]);
    assert_eq!(buf.parse_frame(), Ok(None));
    buf.feed(&bytes[6..]);
    assert_eq!(buf.parse_frame(), Ok(Some(m)));
    assert!(buf.is_empty());
    assert_eq!(buf.finish(), Ok(None));
}

#[test]
fn frame_keepalive_only() {
    let mut buf = FrameBuffer::new();
    buf.feed(&[0, 0, 0, 0, 0, 0, 0, 0]);
    assert_eq!(buf.parse_frame(), Ok(None));
    assert!(buf.is_empty());
}

#[test]
fn frame_unknown_tag() {
    let mut buf = FrameBuffer::new();
    buf.feed(&[0, 0, 0, 1, 9]);
    assert_eq!(buf.parse_frame(), Err(StreamError::UnknownTag(9)));
}
