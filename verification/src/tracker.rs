//! The tracker exchange: the announce URL and the compact peer list.
use crate::bencode::{
    decode_bencoded_vec_start_at, dict_get, lemma_dictionary_view, lookup, parse_value,
    BencodeValue, Value,
};
use crate::hashing::{hex_chars, hex_digit, hex_of};
use crate::metainfo::TorrentMetadata;
use vstd::prelude::*;
use vstd::string::StringExecFns;

verus! {

#[derive(Debug, Clone)]
pub struct TrackerRequest {
    /// A unique identifier for this client, 20 bytes long.
    pub peer_id: String,
    /// The port this client is listening on.
    pub port: u16,
    /// The total amount uploaded so far.
    pub uploaded: u64,
    /// The total amount downloaded so far.
    pub downloaded: u64,
    /// Whether the peer list should use the compact representation.
    pub compact: u8,
    /// The number of bytes left to download.
    pub left: usize,
}

/// One peer that a tracker announced: an IPv4 address and a port.
#[derive(Debug, Clone, Copy, PartialEq, Eq)]
pub struct PeerAddress {
    pub ip: [u8; 4],
    pub port: u16,
}

/// The peers of a tracker's response, in the order in which it lists them.
#[derive(Debug, Clone)]
pub struct Peers(pub Vec<PeerAddress>);

#[derive(Debug, Clone)]
pub struct TrackerResponse {
    /// How often, in seconds, the tracker wants to be asked. Advisory.
    pub interval: u64,
    /// The peers to connect to.
    pub peers: Peers,
}

/// Why no announce URL could be made.
#[derive(Debug, Clone, Copy, PartialEq, Eq, Structural)]
pub enum UrlError {
    /// The query's parameters could not be encoded.
    Query,
}

/// Why a tracker's response is refused.
#[derive(Debug, Clone, Copy, PartialEq, Eq, Structural)]
pub enum TrackerError {
    /// The body is not well-formed bencode.
    Decode { offset: usize },
    /// The body is no dictionary.
    Root,
    /// `interval` is absent, no integer, or negative.
    Interval,
    /// `peers` is absent or no byte string.
    Peers,
    /// The length of `peers` is not a multiple of 6.
    PeersLength { length: usize },
}

/// `serde_urlencoded::ser::Error`, the error of the query encoder. It is only
/// passed on, never looked into.
#[verifier::external_type_specification]
#[verifier::external_body]
pub struct ExQueryError(serde_urlencoded::ser::Error);

/// What the query encoder gives for a sequence of pairs: their text, or nothing.
pub uninterp spec fn query_text(pairs: Seq<(Seq<char>, Seq<char>)>) -> Option<Seq<char>>;

/// The pairs of a vector of string pairs, as text.
pub open spec fn pairs_model(pairs: Seq<(String, String)>) -> Seq<(Seq<char>, Seq<char>)> {
    Seq::new(pairs.len(), |i: int| (pairs[i].0@, pairs[i].1@))
}

/// `serde_urlencoded::to_string` on a sequence of pairs: what it gives is a
/// matter of the pairs alone, be it their encoded text or an error.
#[verifier::external_body]
fn form_urlencode(pairs: &Vec<(String, String)>) -> (r: Result<String, serde_urlencoded::ser::Error>)
    ensures
        match r {
            Ok(text) => query_text(pairs_model(pairs@)) == Some(text@),
            Err(_) => query_text(pairs_model(pairs@)) is None,
        },
{
    serde_urlencoded::to_string(pairs)
}

/// The decimal digits of a natural number as text.
pub open spec fn nat_chars(n: nat) -> Seq<char>
    decreases n,
{
    if n < 10 {
        seq![hex_digit(n as int)]
    } else {
        nat_chars(n / 10).push(hex_digit((n % 10) as int))
    }
}

/// The text of one decimal digit.
fn digit_str(d: u64) -> (s: &'static str)
    requires
        d < 10,
    ensures
        s@ == seq![hex_digit(d as int)],
{
    proof {
        reveal_strlit("0");
        reveal_strlit("1");
        reveal_strlit("2");
        reveal_strlit("3");
        reveal_strlit("4");
        reveal_strlit("5");
        reveal_strlit("6");
        reveal_strlit("7");
        reveal_strlit("8");
        reveal_strlit("9");
    }
    let s = if d == 0 {
        "0"
    } else if d == 1 {
        "1"
    } else if d == 2 {
        "2"
    } else if d == 3 {
        "3"
    } else if d == 4 {
        "4"
    } else if d == 5 {
        "5"
    } else if d == 6 {
        "6"
    } else if d == 7 {
        "7"
    } else if d == 8 {
        "8"
    } else {
        "9"
    };
    assert(s@ =~= seq![hex_digit(d as int)]);
    s
}

/// A number in decimal.
pub fn decimal_string(n: u64) -> (s: String)
    ensures
        s@ == nat_chars(n as nat),
    decreases n,
{
    let mut s = if n >= 10 {
        decimal_string(n / 10)
    } else {
        String::new()
    };
    s.append(digit_str(n % 10));
    assert(s@ =~= nat_chars(n as nat));
    s
}

/// The bytes of an info hash for a URL: each byte as `%` and two lowercase
/// hexadecimal digits. Only the first `n` bytes are taken.
pub open spec fn percent_text(bytes: Seq<u8>, n: nat) -> Seq<char>
    decreases n,
{
    if n == 0 || n > bytes.len() {
        Seq::empty()
    } else {
        percent_text(bytes, (n - 1) as nat) + seq!['%'] + hex_chars(seq![bytes[n - 1]])
    }
}

/// Percent-encodes every byte of an info hash.
pub fn urlencode(t: &[u8; 20]) -> (encoded: String)
    ensures
        encoded@ == percent_text(t@, 20),
{
    let mut encoded = String::new();
    let mut i: usize = 0;
    proof {
        reveal_strlit("%");
    }
    while i < 20
        invariant
            i <= 20,
            encoded@ == percent_text(t@, i as nat),
            "%"@ == seq!['%'],
        decreases 20 - i,
    {
        let one = [t[i]];
        assert(one@ =~= seq![t@[i as int]]);
        encoded.append("%");
        let digits = hex_of(one.as_slice());
        encoded.append(digits.as_str());
        i = i + 1;
    }
    encoded
}

/// The query pairs of a request, in the order in which they are sent.
pub open spec fn query_pairs(r: TrackerRequest) -> Seq<(Seq<char>, Seq<char>)> {
    seq![
        ("peer_id"@, r.peer_id@),
        ("port"@, nat_chars(r.port as nat)),
        ("uploaded"@, nat_chars(r.uploaded as nat)),
        ("downloaded"@, nat_chars(r.downloaded as nat)),
        ("compact"@, nat_chars(r.compact as nat)),
        ("left"@, nat_chars(r.left as nat)),
    ]
}

/// The announce URL made of its three parts.
pub open spec fn announce_url(url: Seq<char>, params: Seq<char>, info_hash: Seq<u8>) -> Seq<char> {
    url + "?"@ + params + "&info_hash="@ + percent_text(info_hash, 20)
}

/// Puts an announce URL together: the tracker's URL, the encoded query, and the
/// info hash with each of its bytes percent-encoded.
pub fn assemble_url(url: &str, params: &str, info_hash: &[u8; 20]) -> (full: String)
    ensures
        full@ == announce_url(url@, params@, info_hash@),
{
    let mut full = String::from_str(url);
    full.append("?");
    full.append(params);
    full.append("&info_hash=");
    let encoded = urlencode(info_hash);
    full.append(encoded.as_str());
    full
}

impl TrackerRequest {
    pub fn new(t: &TorrentMetadata) -> (r: Self)
        ensures
            r.peer_id@ == "-0-1-2-3-4-5-6-7-8-9"@,
            r.port == 6881,
            r.uploaded == 0,
            r.downloaded == 0,
            r.compact == 1,
            r.left == t.total_length,
    {
        Self {
            peer_id: String::from_str("-0-1-2-3-4-5-6-7-8-9"),
            port: 6881,
            uploaded: 0,
            downloaded: 0,
            compact: 1,
            left: t.total_length,
        }
    }

    /// The URL of the announce request: the tracker's URL, the request's six
    /// parameters as the query encoder writes them, and the info hash; or the
    /// error where the encoder refuses the parameters.
    pub fn gen_url(&self, url: &String, info_hash: &[u8; 20]) -> (r: Result<String, UrlError>)
        ensures
            url_matches(r, url_outcome(url@, query_text(query_pairs(*self)), info_hash@)),
    {
        let mut pairs: Vec<(String, String)> = Vec::new();
        pairs.push((String::from_str("peer_id"), self.peer_id.clone()));
        pairs.push((String::from_str("port"), decimal_string(self.port as u64)));
        pairs.push((String::from_str("uploaded"), decimal_string(self.uploaded)));
        pairs.push((String::from_str("downloaded"), decimal_string(self.downloaded)));
        pairs.push((String::from_str("compact"), decimal_string(self.compact as u64)));
        pairs.push((String::from_str("left"), decimal_string(self.left as u64)));
        assert(pairs_model(pairs@) =~= query_pairs(*self));
        finish_url(url.as_str(), form_urlencode(&pairs), info_hash)
    }
}

/// The announce URL for what the query encoder gave: the URL put together
/// where it gave a text, the error where it gave none.
pub open spec fn url_outcome(url: Seq<char>, query: Option<Seq<char>>, info_hash: Seq<u8>)
    -> Result<Seq<char>, UrlError> {
    match query {
        Some(params) => Ok(announce_url(url, params, info_hash)),
        None => Err(UrlError::Query),
    }
}

/// Whether a URL or error is the one that the model prescribes.
pub open spec fn url_matches(r: Result<String, UrlError>, model: Result<Seq<char>, UrlError>)
    -> bool {
    match (r, model) {
        (Ok(full), Ok(text)) => full@ == text,
        (Err(e), Err(f)) => e == f,
        _ => false,
    }
}

/// Makes the announce URL of what the query encoder gave: with a text, the
/// URL put together; with an error, the error of this library.
pub fn finish_url(
    url: &str,
    encoded: Result<String, serde_urlencoded::ser::Error>,
    info_hash: &[u8; 20],
) -> (r: Result<String, UrlError>)
    ensures
        url_matches(
            r,
            url_outcome(
                url@,
                match encoded {
                    Ok(params) => Some(params@),
                    Err(_) => None,
                },
                info_hash@,
            ),
        ),
{
    match encoded {
        Ok(params) => Ok(assemble_url(url, params.as_str(), info_hash)),
        Err(_) => Err(UrlError::Query),
    }
}

// ---------------------------------------------------------------------------
// The response
// ---------------------------------------------------------------------------

pub open spec fn key_interval() -> Seq<u8> {
    seq![105u8, 110u8, 116u8, 101u8, 114u8, 118u8, 97u8, 108u8]
}

pub open spec fn key_peers() -> Seq<u8> {
    seq![112u8, 101u8, 101u8, 114u8, 115u8]
}

/// Whether `peers` are the peers that a compact list holds: one for each six
/// bytes, four of address and two of port, most significant byte first.
pub open spec fn is_compact_list(peers: Seq<PeerAddress>, v: Seq<u8>) -> bool {
    &&& v.len() == 6 * peers.len()
    &&& forall|i: int|
        0 <= i < peers.len() ==> (#[trigger] peers[i]).ip@ == v.subrange(6 * i, 6 * i + 4)
            && peers[i].port == v[6 * i + 4] * 256 + v[6 * i + 5]
}

/// A compact list holds one sequence of peers and no other.
pub proof fn lemma_compact_list_is_unique(a: Seq<PeerAddress>, b: Seq<PeerAddress>, v: Seq<u8>)
    requires
        is_compact_list(a, v),
        is_compact_list(b, v),
    ensures
        a == b,
{
    assert forall|i: int| 0 <= i < a.len() implies a[i] == b[i] by {
        assert(a[i].ip@ == b[i].ip@);
        assert(a[i].ip == b[i].ip);
    }
    assert(a =~= b);
}

impl Peers {
    /// Reads a compact peer list.
    pub fn from_compact(v: &[u8]) -> (r: Result<Peers, TrackerError>)
        ensures
            match r {
                Ok(peers) => v@.len() % 6 == 0 && is_compact_list(peers.0@, v@),
                Err(e) => v@.len() % 6 != 0 && e == (TrackerError::PeersLength {
                    length: v@.len() as usize,
                }),
            },
    {
        let total: usize = v.len();
        if total % 6 != 0 {
            return Err(TrackerError::PeersLength { length: total });
        }
        let count: usize = total / 6;
        let mut peers: Vec<PeerAddress> = Vec::new();
        let mut i: usize = 0;
        while i < count
            invariant
                i <= count,
                6 * count == total,
                total == v@.len(),
                peers@.len() == i,
                forall|j: int|
                    0 <= j < i ==> (#[trigger] peers@[j]).ip@ == v@.subrange(6 * j, 6 * j + 4)
                        && peers@[j].port == v@[6 * j + 4] * 256 + v@[6 * j + 5],
            decreases count - i,
        {
            let at: usize = 6 * i;
            let ip = [v[at], v[at + 1], v[at + 2], v[at + 3]];
            let port: u16 = v[at + 4] as u16 * 256 + v[at + 5] as u16;
            assert(ip@ =~= v@.subrange(6 * i, 6 * i + 4));
            peers.push(PeerAddress { ip, port });
            i = i + 1;
        }
        Ok(Peers(peers))
    }

    /// Writes the peers as a compact list.
    pub fn to_compact(&self) -> (v: Vec<u8>)
        requires
            6 * self.0@.len() <= usize::MAX,
        ensures
            is_compact_list(self.0@, v@),
    {
        let mut v: Vec<u8> = Vec::new();
        let mut i: usize = 0;
        while i < self.0.len()
            invariant
                i <= self.0@.len(),
                v@.len() == 6 * i,
                forall|j: int|
                    0 <= j < i ==> (#[trigger] self.0@[j]).ip@ == v@.subrange(6 * j, 6 * j + 4)
                        && self.0@[j].port == v@[6 * j + 4] * 256 + v@[6 * j + 5],
            decreases self.0@.len() - i,
        {
            let peer = self.0[i];
            let ghost before = v@;
            v.push(peer.ip[0]);
            v.push(peer.ip[1]);
            v.push(peer.ip[2]);
            v.push(peer.ip[3]);
            v.push((peer.port / 256) as u8);
            v.push((peer.port % 256) as u8);
            assert(peer.ip@ =~= v@.subrange(6 * i, 6 * i + 4));
            assert forall|j: int| 0 <= j < i implies (#[trigger] self.0@[j]).ip@ == v@.subrange(
                6 * j,
                6 * j + 4,
            ) && self.0@[j].port == v@[6 * j + 4] * 256 + v@[6 * j + 5] by {
                assert(v@.subrange(6 * j, 6 * j + 4) =~= before.subrange(6 * j, 6 * j + 4));
            }
            i = i + 1;
        }
        v
    }
}

/// What a tracker's response body holds: the interval and the compact peer
/// list, or the reason for which it is refused.
pub open spec fn response_of(body: Seq<u8>) -> Result<(int, Seq<u8>), TrackerError> {
    match parse_value(body, 0) {
        Err(offset) => Err(TrackerError::Decode { offset: offset as usize }),
        Ok((Value::Dict(top), _)) => match lookup(top, key_interval()) {
            Some(Value::Integer(interval)) => if interval < 0 {
                Err(TrackerError::Interval)
            } else {
                match lookup(top, key_peers()) {
                    Some(Value::Bytes(peers)) => if peers.len() % 6 == 0 {
                        Ok((interval, peers))
                    } else {
                        Err(TrackerError::PeersLength { length: peers.len() as usize })
                    },
                    _ => Err(TrackerError::Peers),
                }
            },
            _ => Err(TrackerError::Interval),
        },
        Ok(_) => Err(TrackerError::Root),
    }
}

impl TrackerResponse {
    /// Reads a tracker's response body.
    pub fn from_bytes(body: &[u8]) -> (r: Result<TrackerResponse, TrackerError>)
        ensures
            match (r, response_of(body@)) {
                (Ok(response), Ok((interval, peers))) => response.interval == interval
                    && is_compact_list(response.peers.0@, peers),
                (Err(e), Err(f)) => e == f,
                _ => false,
            },
    {
        let top = match decode_bencoded_vec_start_at(body, 0) {
            Err(e) => {
                return Err(TrackerError::Decode { offset: e.offset });
            },
            Ok((BencodeValue::Dictionary(top), _)) => {
                proof {
                    lemma_dictionary_view(top);
                }
                top
            },
            Ok(_) => {
                return Err(TrackerError::Root);
            },
        };
        let key_i = [105u8, 110u8, 116u8, 101u8, 114u8, 118u8, 97u8, 108u8];
        let key_p = [112u8, 101u8, 101u8, 114u8, 115u8];
        assert(key_i@ =~= key_interval());
        assert(key_p@ =~= key_peers());
        let interval: u64 = match dict_get(&top, key_i.as_slice()) {
            Some(BencodeValue::Integer(n)) => {
                if *n < 0 {
                    return Err(TrackerError::Interval);
                }
                *n as u64
            },
            _ => {
                return Err(TrackerError::Interval);
            },
        };
        match dict_get(&top, key_p.as_slice()) {
            Some(BencodeValue::ByteString(p)) => match Peers::from_compact(p.as_slice()) {
                Ok(peers) => Ok(TrackerResponse { interval, peers }),
                Err(e) => Err(e),
            },
            _ => Err(TrackerError::Peers),
        }
    }
}

} // verus!
