use bittorrent_core::bencode::{encode, Value};
use bittorrent_core::metainfo::{Meta, MetainfoError};
use bittorrent_core::bencode::BencodeError;
use sha1::{Digest, Sha1};

fn b(s: &str) -> Vec<u8> {
    s.as_bytes().to_vec()
}

fn info_value(length: i64, piece_length: i64, pieces: Vec<u8>) -> Value {
    Value::Dictionary(vec![
        (b("length"), Value::Integer(length)),
        (b("name"), Value::ByteString(b("sample.txt"))),
        (b("piece length"), Value::Integer(piece_length)),
        (b("pieces"), Value::ByteString(pieces)),
    ])
}

fn torrent(info: Value) -> Vec<u8> {
    encode(&Value::Dictionary(vec![
        (b("announce"), Value::ByteString(b("http://tracker.example/announce"))),
        (b("info"), info),
    ]))
}

fn pieces(n: usize) -> Vec<u8> {
    (0..20 * n).map(|i| (i * 7 % 256) as u8).collect()
}

#[test]
fn reads_torrent_fields() {
    let bytes = torrent(info_value(92063, 32768, pieces(3)));
    let meta = Meta::from_bytes(&bytes).unwrap();
    assert_eq!(meta.announce, "http://tracker.example/announce");
    assert_eq!(meta.info.name, "sample.txt");
    assert_eq!(meta.info.length, 92063);
    assert_eq!(meta.info.piece_length, 32768);
    assert_eq!(meta.info.pieces, pieces(3));
}

#[test]
fn info_hash_is_sha1_of_info_encoding() {
    let info = info_value(92063, 32768, pieces(3));
    let info_bytes = encode(&info);
    let bytes = torrent(info);
    let meta = Meta::from_bytes(&bytes).unwrap();
    let expected = Sha1::digest(&info_bytes).to_vec();
    assert_eq!(meta.calculate_info_hash(), expected);
    assert_eq!(meta.calculate_info_hash_hexed(), hex::encode(&expected));
    assert_eq!(meta.calculate_info_hash_hexed().len(), 40);
}

#[test]
fn info_hash_keeps_unsorted_key_order() {
    let info = Value::Dictionary(vec![
        (b("pieces"), Value::ByteString(pieces(1))),
        (b("name"), Value::ByteString(b("x"))),
        (b("piece length"), Value::Integer(16)),
        (b("length"), Value::Integer(10)),
    ]);
    let info_bytes = encode(&info);
    let meta = Meta::from_bytes(&torrent(info)).unwrap();
    assert_eq!(meta.calculate_info_hash(), Sha1::digest(&info_bytes).to_vec());
}

#[test]
fn info_hash_of_known_dictionary() {
    let meta = Meta::from_bytes(&torrent(info_value(1, 1, pieces(1)))).unwrap();
    let info_bytes = encode(&info_value(1, 1, pieces(1)));
    assert_eq!(
        meta.calculate_info_hash_hexed(),
        base16::encode_lower(&Sha1::digest(&info_bytes)[..])
    );
}

#[test]
fn piece_split() {
    let meta = Meta::from_bytes(&torrent(info_value(92063, 32768, pieces(3)))).unwrap();
    assert_eq!(meta.piece_count(), 3);
    assert_eq!(meta.piece_length(0), 32768);
    assert_eq!(meta.piece_length(1), 32768);
    assert_eq!(meta.piece_length(2), 92063 - 2 * 32768);
    let total: usize = (0..meta.piece_count()).map(|i| meta.piece_length(i)).sum();
    assert_eq!(total, 92063);
}

#[test]
fn piece_split_exact_multiple() {
    let meta = Meta::from_bytes(&torrent(info_value(65536, 32768, pieces(2)))).unwrap();
    assert_eq!(meta.piece_count(), 2);
    assert_eq!(meta.piece_length(1), 32768);
}

#[test]
fn piece_split_empty_file() {
    let meta = Meta::from_bytes(&torrent(info_value(0, 32768, pieces(0)))).unwrap();
    assert_eq!(meta.piece_count(), 0);
}

#[test]
fn piece_hashes_are_chunks() {
    let p = pieces(3);
    let meta = Meta::from_bytes(&torrent(info_value(92063, 32768, p.clone()))).unwrap();
    let hashes = meta.piece_hashes();
    assert_eq!(hashes.len(), 3);
    for (i, h) in hashes.iter().enumerate() {
        assert_eq!(h[..], p[20 * i..20 * i + 20]);
    }
}

#[test]
fn metainfo_errors() {
    assert_eq!(Meta::from_bytes(b"i1e").unwrap_err(), MetainfoError::TypeMismatch);
    assert_eq!(Meta::from_bytes(b"x").unwrap_err(), MetainfoError::Decode(BencodeError::UnexpectedByte));
    let no_info = encode(&Value::Dictionary(vec![(b("announce"), Value::ByteString(b("u")))]));
    assert_eq!(Meta::from_bytes(&no_info).unwrap_err(), MetainfoError::MissingField);
    let bad_pieces = torrent(info_value(10, 16, vec![1, 2, 3]));
    assert_eq!(Meta::from_bytes(&bad_pieces).unwrap_err(), MetainfoError::BadPiecesLength);
    let zero_piece_length = torrent(info_value(10, 0, pieces(1)));
    assert_eq!(Meta::from_bytes(&zero_piece_length).unwrap_err(), MetainfoError::TypeMismatch);
    let negative_length = torrent(info_value(-1, 16, pieces(1)));
    assert_eq!(Meta::from_bytes(&negative_length).unwrap_err(), MetainfoError::TypeMismatch);
    let bad_announce = encode(&Value::Dictionary(vec![
        (b("announce"), Value::ByteString(vec![0xff, 0xfe])),
        (b("info"), info_value(1, 1, pieces(1))),
    ]));
    assert_eq!(Meta::from_bytes(&bad_announce).unwrap_err(), MetainfoError::TypeMismatch);
}
