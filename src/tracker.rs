//! The tracker request URL and the tracker response.

use crate::bencode::{decode, entries_model, parse_value, BValue, Value};
use crate::hashing::{hex_digit, hex_encode, hex_lower, sha1_of};
use crate::metainfo::{bytes_entry, count_entry, count_field, bytes_field, Meta, MetainfoError};
use crate::peers::{peer_at, PeersContainer};
use crate::bencode::encoding;
use vstd::prelude::*;
use vstd::string::{StrSliceExecFns, StringExecFns};
use vstd::utf8::encode_utf8;

verus! {

/// A byte as `%` and two lowercase hexadecimal digits, for every byte.
pub open spec fn percent_encoded(b: Seq<u8>) -> Seq<char>
    decreases b.len(),
{
    if b.len() == 0 {
        Seq::empty()
    } else {
        percent_encoded(b.drop_last()) + seq!['%'] + hex_lower(seq![b.last()])
    }
}

/// The uppercase hexadecimal digit for `n` in `0..16`.
pub open spec fn hex_upper_digit(n: int) -> char {
    if n < 10 {
        (48 + n) as char
    } else {
        (55 + n) as char
    }
}

/// How form encoding writes one byte: `*-._`, digits and letters stay,
/// a space becomes `+`, any other byte becomes `%` and two uppercase digits.
pub open spec fn form_byte(b: u8) -> Seq<char> {
    if b == 42 || b == 45 || b == 46 || 48 <= b <= 57 || 65 <= b <= 90 || b == 95 || 97 <= b <= 122 {
        seq![(b as int) as char]
    } else if b == 32 {
        seq!['+']
    } else {
        seq!['%', hex_upper_digit(b as int / 16), hex_upper_digit(b as int % 16)]
    }
}

/// Form encoding of some bytes.
pub open spec fn form_bytes(b: Seq<u8>) -> Seq<char>
    decreases b.len(),
{
    if b.len() == 0 {
        Seq::empty()
    } else {
        form_bytes(b.drop_last()) + form_byte(b.last())
    }
}

/// One `name=value` pair, each side form-encoded from its UTF-8 bytes.
pub open spec fn form_pair(p: (Seq<char>, Seq<char>)) -> Seq<char> {
    form_bytes(encode_utf8(p.0)) + seq!['='] + form_bytes(encode_utf8(p.1))
}

/// A query string: the pairs in order, separated by `&`.
pub open spec fn form_query(pairs: Seq<(Seq<char>, Seq<char>)>) -> Seq<char>
    decreases pairs.len(),
{
    if pairs.len() == 0 {
        Seq::empty()
    } else if pairs.len() == 1 {
        form_pair(pairs[0])
    } else {
        form_query(pairs.drop_last()) + seq!['&'] + form_pair(pairs.last())
    }
}

/// The text of string pairs.
pub open spec fn pairs_text(pairs: Seq<(&str, &str)>) -> Seq<(Seq<char>, Seq<char>)> {
    Seq::new(pairs.len(), |i: int| (pairs[i].0@, pairs[i].1@))
}

/// Relies on `serde_urlencoded::to_string` on a slice of string pairs: it
/// appends each pair through `form_urlencoded::Serializer::append_pair`
/// (a `&` before every pair but the first, then the form-encoded UTF-8 bytes
/// of name and value around `=`); serialising string pairs does not fail.
#[verifier::external_body]
fn form_urlencode(pairs: &[(&str, &str)]) -> (r: Result<String, serde_urlencoded::ser::Error>)
    ensures
        r is Ok,
        r->Ok_0@ == form_query(pairs_text(pairs@)),
{
    serde_urlencoded::to_string(pairs)
}

#[verifier::external_type_specification]
#[verifier::external_body]
pub struct ExUrlencodedError(serde_urlencoded::ser::Error);

/// The decimal digits of `n`, as text.
pub open spec fn decimal_chars(n: nat) -> Seq<char>
    decreases n,
{
    if n < 10 {
        seq![(48 + n) as char]
    } else {
        decimal_chars(n / 10) + seq![(48 + n % 10) as char]
    }
}

fn push_decimal(n: u64, out: &mut String)
    ensures
        final(out)@ == old(out)@ + decimal_chars(n as nat),
    decreases n,
{
    if n >= 10 {
        push_decimal(n / 10, out);
    }
    let digits = "0123456789";
    proof {
        reveal_strlit("0123456789");
    }
    let d = (n % 10) as usize;
    out.append(digits.substring_ascii(d, d + 1));
    assert(out@ =~= old(out)@ + decimal_chars(n as nat));
}

/// The decimal text of `n`.
pub fn decimal_string(n: u64) -> (r: String)
    ensures
        r@ == decimal_chars(n as nat),
{
    let mut out = String::new();
    push_decimal(n, &mut out);
    assert(out@ =~= decimal_chars(n as nat));
    out
}

/// Percent-encodes every byte as `%` and two lowercase hexadecimal digits,
/// reserved or not.
pub fn url_encode(input: &[u8]) -> (r: String)
    ensures
        r@ == percent_encoded(input@),
{
    let mut encoded = String::new();
    let mut i: usize = 0;
    while i < input.len()
        invariant
            i <= input@.len(),
            encoded@ == percent_encoded(input@.subrange(0, i as int)),
        decreases input.len() - i,
    {
        let one = vec![input[i]];
        let digits = hex_encode(one.as_slice());
        proof {
            reveal_strlit("%");
        }
        encoded.append("%");
        encoded.append(digits.as_str());
        let ghost prefix = input@.subrange(0, i + 1);
        assert(prefix.drop_last() =~= input@.subrange(0, i as int));
        assert(one@ =~= seq![prefix.last()]);
        i += 1;
        assert(encoded@ =~= percent_encoded(input@.subrange(0, i as int)));
    }
    assert(input@.subrange(0, input@.len() as int) =~= input@);
    encoded
}

/// The query parameters of an announce, in order: peer id, port, bytes
/// uploaded and downloaded (none yet), bytes left, compact peers wanted.
pub open spec fn announce_params(peer_id: Seq<char>, port: nat, left: nat) -> Seq<(Seq<char>, Seq<char>)> {
    seq![
        ("peer_id"@, peer_id),
        ("port"@, decimal_chars(port)),
        ("uploaded"@, "0"@),
        ("downloaded"@, "0"@),
        ("left"@, decimal_chars(left)),
        ("compact"@, "1"@),
    ]
}

/// The announce URL: the tracker URL, the form-encoded parameters, then the
/// info digest with every byte percent-encoded.
pub open spec fn announce_url(announce: Seq<char>, info_hash: Seq<u8>, peer_id: Seq<char>, port: nat, left: nat) -> Seq<char> {
    announce + seq!['?'] + form_query(announce_params(peer_id, port, left)) + "&info_hash="@
        + percent_encoded(info_hash)
}

/// The GET URL that announces this client to a tracker.
pub fn tracker_url(announce: &str, info_hash: &[u8], peer_id: &str, port: u16, left: usize) -> (r: String)
    ensures
        r@ == announce_url(announce@, info_hash@, peer_id@, port as nat, left as nat),
{
    let port_text = decimal_string(port as u64);
    let left_text = decimal_string(left as u64);
    let pairs = [
        ("peer_id", peer_id),
        ("port", port_text.as_str()),
        ("uploaded", "0"),
        ("downloaded", "0"),
        ("left", left_text.as_str()),
        ("compact", "1"),
    ];
    assert(pairs_text(pairs@) =~= announce_params(peer_id@, port as nat, left as nat));
    let query = match form_urlencode(pairs.as_slice()) {
        Ok(q) => q,
        Err(_) => String::new(),
    };
    let mut url = String::from_str(announce);
    proof {
        reveal_strlit("?");
    }
    url.append("?");
    url.append(query.as_str());
    url.append("&info_hash=");
    let hash_text = url_encode(info_hash);
    url.append(hash_text.as_str());
    url
}

impl Meta {
    /// The announce URL of this torrent for a fresh client, which has
    /// downloaded nothing and has the whole file left.
    pub fn announce_url(&self, peer_id: &str, port: u16) -> (r: String)
        ensures
            r@ == announce_url(
                self.announce@,
                sha1_of(encoding(self.info_value@)),
                peer_id@,
                port as nat,
                self.info.length as nat,
            ),
    {
        let hash = self.calculate_info_hash();
        tracker_url(self.announce.as_str(), hash.as_slice(), peer_id, port, self.info.length)
    }
}

/// A tracker's answer: the re-announce interval in seconds and the peers.
#[derive(Debug)]
pub struct TrackerResponse {
    pub interval: usize,
    pub peers: PeersContainer,
}

/// Why the tracker gave no peers.
#[derive(Debug, Clone, Copy, PartialEq, Eq, Structural)]
pub enum TrackerError {
    /// The request did not reach the tracker or got no answer.
    Transport,
    /// The answer is not a bencoded dictionary with `interval` and a compact
    /// `peers` blob.
    Decode,
}

/// The key `interval`.
pub open spec fn key_interval() -> Seq<u8> {
    seq![105u8, 110, 116, 101, 114, 118, 97, 108]
}

/// The key `peers`.
pub open spec fn key_peers() -> Seq<u8> {
    seq![112u8, 101, 101, 114, 115]
}

/// The interval and the compact peers blob of a well-shaped response body.
pub open spec fn response_fields(body: Seq<u8>) -> Option<(nat, Seq<u8>)> {
    match parse_value(body) {
        Ok((BValue::Dict(top), _)) => match (count_field(top, key_interval(), 0), bytes_field(top, key_peers())) {
            (Ok(interval), Ok(blob)) => if blob.len() % 6 == 0 {
                Some((interval, blob))
            } else {
                None
            },
            _ => None,
        },
        _ => None,
    }
}

/// Reads a tracker response body.
pub fn parse_tracker_response(body: &[u8]) -> (r: Result<TrackerResponse, TrackerError>)
    ensures
        r is Err <==> response_fields(body@) is None,
        r matches Err(e) ==> e == TrackerError::Decode,
        r matches Ok(t) ==> response_fields(body@) matches Some((interval, blob)) && t.interval
            == interval && t.peers.peers@.len() == blob.len() / 6 && forall|i: int|
            0 <= i < t.peers.peers@.len() ==> #[trigger] peer_at(blob, i, t.peers.peers@[i]),
{
    let top = match decode(body) {
        Ok((Value::Dictionary(top), _)) => top,
        _ => {
            return Err(TrackerError::Decode);
        },
    };
    let interval_key: Vec<u8> = vec![105u8, 110, 116, 101, 114, 118, 97, 108];
    let peers_key: Vec<u8> = vec![112u8, 101, 101, 114, 115];
    assert(interval_key@ == key_interval());
    assert(peers_key@ == key_peers());
    let interval = count_entry(&top, interval_key.as_slice(), 0);
    let blob = bytes_entry(&top, peers_key.as_slice());
    match (interval, blob) {
        (Ok(interval), Ok(blob)) => match PeersContainer::from_compact(blob.as_slice()) {
            Ok(peers) => Ok(TrackerResponse { interval, peers }),
            Err(_) => Err(TrackerError::Decode),
        },
        _ => Err(TrackerError::Decode),
    }
}

/// Whether `c` is a lowercase hexadecimal digit.
pub open spec fn is_lower_hex(c: char) -> bool {
    ('0' <= c && c <= '9') || ('a' <= c && c <= 'f')
}

/// The digits that `hex_digit` gives are lowercase hexadecimal digits.
pub proof fn lemma_hex_digit_lower(n: int)
    requires
        0 <= n < 16,
    ensures
        is_lower_hex(hex_digit(n)),
{
}

/// Whether characters `3 * i` to `3 * i + 2` of `e` are `%` and the two
/// lowercase hexadecimal digits of byte `i` of `b`.
pub open spec fn encodes_byte_at(e: Seq<char>, b: Seq<u8>, i: int) -> bool {
    &&& e[3 * i] == '%'
    &&& e[3 * i + 1] == hex_digit(b[i] as int / 16)
    &&& e[3 * i + 2] == hex_digit(b[i] as int % 16)
    &&& is_lower_hex(e[3 * i + 1])
    &&& is_lower_hex(e[3 * i + 2])
}

/// Every byte, reserved or not, becomes exactly `%` and two lowercase
/// hexadecimal digits, high nibble first.
#[verifier::rlimit(40)]
pub proof fn lemma_url_encoding(b: Seq<u8>)
    ensures
        percent_encoded(b).len() == 3 * b.len(),
        forall|i: int| 0 <= i < b.len() ==> #[trigger] encodes_byte_at(percent_encoded(b), b, i),
    decreases b.len(),
{
    if b.len() > 0 {
        let t = b.drop_last();
        let x = b.last();
        let pt = percent_encoded(t);
        lemma_url_encoding(t);
        assert(seq![x].drop_last() =~= Seq::<u8>::empty());
        assert(hex_lower(Seq::<u8>::empty()) =~= Seq::<char>::empty());
        let tail = seq!['%', hex_digit(x as int / 16), hex_digit(x as int % 16)];
        assert(hex_lower(seq![x]) =~= seq![hex_digit(x as int / 16), hex_digit(x as int % 16)]);
        let e = percent_encoded(b);
        assert(e =~= pt + tail);
        assert forall|i: int| 0 <= i < b.len() implies #[trigger] encodes_byte_at(e, b, i) by {
            lemma_hex_digit_lower(b[i] as int / 16);
            lemma_hex_digit_lower(b[i] as int % 16);
            if i < t.len() {
                assert(encodes_byte_at(pt, t, i));
                assert(t[i] == b[i]);
                assert(e[3 * i] == pt[3 * i]);
                assert(e[3 * i + 1] == pt[3 * i + 1]);
                assert(e[3 * i + 2] == pt[3 * i + 2]);
            } else {
                assert(e[3 * i] == tail[0]);
                assert(e[3 * i + 1] == tail[1]);
                assert(e[3 * i + 2] == tail[2]);
            }
        }
    }
}

} // verus!
