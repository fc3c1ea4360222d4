use bittorrent_starter_rust::metainfo::TorrentMetadata;
use bittorrent_starter_rust::tracker::{
    assemble_url, decimal_string, finish_url, urlencode, PeerAddress, Peers, TrackerError,
    TrackerRequest, TrackerResponse, UrlError,
};

const INFO_HASH: [u8; 20] = [
    0xd6, 0x9f, 0x91, 0xe6, 0xb2, 0xae, 0x4c, 0x54, 0x24, 0x68, 0xd1, 0x07, 0x3a, 0x71, 0xd4, 0xea,
    0x13, 0x87, 0x9a, 0x7f,
];

fn sample() -> TorrentMetadata {
    let mut bytes =
        b"d8:announce55:http://bittorrent-test-tracker.codecrafters.io/announce4:infod6:lengthi92063e4:name10:sample.txt12:piece lengthi32768e6:pieces60:"
            .to_vec();
    bytes.extend_from_slice(&[7u8; 60]);
    bytes.extend_from_slice(b"ee");
    TorrentMetadata::parse(&bytes).unwrap()
}

#[test]
fn test_tracker_request() {
    let t = sample();
    let tracker_request = TrackerRequest::new(&t);
    let url = tracker_request.gen_url(&t.announce, &INFO_HASH).unwrap();
    assert_eq!(url.as_str(), "http://bittorrent-test-tracker.codecrafters.io/announce?peer_id=-0-1-2-3-4-5-6-7-8-9&port=6881&uploaded=0&downloaded=0&compact=1&left=92063&info_hash=%d6%9f%91%e6%b2%ae%4c%54%24%68%d1%07%3a%71%d4%ea%13%87%9a%7f");
}

#[test]
fn request_defaults() {
    let r = TrackerRequest::new(&sample());
    assert_eq!(r.peer_id, "-0-1-2-3-4-5-6-7-8-9");
    assert_eq!(r.port, 6881);
    assert_eq!(r.uploaded, 0);
    assert_eq!(r.downloaded, 0);
    assert_eq!(r.compact, 1);
    assert_eq!(r.left, 92063);
}

#[test]
fn query_values_are_percent_encoded() {
    let mut r = TrackerRequest::new(&sample());
    r.peer_id = "a b&c".to_string();
    r.port = 65535;
    r.uploaded = u64::MAX;
    let url = r.gen_url(&"http://t/a".to_string(), &[0u8; 20]).unwrap();
    assert!(url.starts_with(
        "http://t/a?peer_id=a+b%26c&port=65535&uploaded=18446744073709551615&downloaded=0&compact=1&left=92063&info_hash=%00%00"
    ));
}

#[test]
fn info_hash_bytes_become_triplets() {
    assert_eq!(
        urlencode(&INFO_HASH),
        "%d6%9f%91%e6%b2%ae%4c%54%24%68%d1%07%3a%71%d4%ea%13%87%9a%7f"
    );
    let mut ascii = [0u8; 20];
    ascii[0] = b'a';
    ascii[19] = 0xff;
    let text = urlencode(&ascii);
    assert_eq!(text.len(), 60);
    assert!(text.starts_with("%61%00"));
    assert!(text.ends_with("%ff"));
}

#[test]
fn url_parts_are_joined() {
    assert_eq!(
        assemble_url("http://x/announce", "a=1&b=2", &[0xabu8; 20]),
        format!("http://x/announce?a=1&b=2&info_hash={}", "%ab".repeat(20))
    );
}

#[test]
fn numbers_in_decimal() {
    assert_eq!(decimal_string(0), "0");
    assert_eq!(decimal_string(7), "7");
    assert_eq!(decimal_string(10), "10");
    assert_eq!(decimal_string(6881), "6881");
    assert_eq!(decimal_string(u64::MAX), "18446744073709551615");
}

#[test]
fn compact_peers_are_read() {
    let peers = Peers::from_compact(&[165, 232, 33, 77, 0xc9, 0x0b, 10, 0, 0, 1, 0x1a, 0xe1]).unwrap();
    assert_eq!(
        peers.0,
        vec![
            PeerAddress { ip: [165, 232, 33, 77], port: 51467 },
            PeerAddress { ip: [10, 0, 0, 1], port: 6881 },
        ]
    );
    assert!(Peers::from_compact(&[]).unwrap().0.is_empty());
}

#[test]
fn compact_peers_of_a_bad_length_are_refused() {
    assert_eq!(
        Peers::from_compact(&[1, 2, 3, 4, 5, 6, 7]).unwrap_err(),
        TrackerError::PeersLength { length: 7 }
    );
}

#[test]
fn compact_peers_are_written() {
    let peers = Peers(vec![
        PeerAddress { ip: [165, 232, 33, 77], port: 51467 },
        PeerAddress { ip: [10, 0, 0, 1], port: 6881 },
    ]);
    let bytes = peers.to_compact();
    assert_eq!(bytes, vec![165, 232, 33, 77, 0xc9, 0x0b, 10, 0, 0, 1, 0x1a, 0xe1]);
    assert_eq!(Peers::from_compact(&bytes).unwrap().0, peers.0);
}

#[test]
fn response_is_read() {
    let mut body = b"d8:intervali60e5:peers6:".to_vec();
    body.extend_from_slice(&[127, 0, 0, 1, 0x1a, 0xe1]);
    body.push(b'e');
    let response = TrackerResponse::from_bytes(&body).unwrap();
    assert_eq!(response.interval, 60);
    assert_eq!(response.peers.0, vec![PeerAddress { ip: [127, 0, 0, 1], port: 6881 }]);
}

#[test]
fn bad_responses_are_refused() {
    assert_eq!(
        TrackerResponse::from_bytes(b"d8:interval").unwrap_err(),
        TrackerError::Decode { offset: 11 }
    );
    assert_eq!(TrackerResponse::from_bytes(b"i1e").unwrap_err(), TrackerError::Root);
    assert_eq!(TrackerResponse::from_bytes(b"d5:peers0:e").unwrap_err(), TrackerError::Interval);
    assert_eq!(
        TrackerResponse::from_bytes(b"d8:intervali-1e5:peers0:e").unwrap_err(),
        TrackerError::Interval
    );
    assert_eq!(
        TrackerResponse::from_bytes(b"d8:intervali60ee").unwrap_err(),
        TrackerError::Peers
    );
    assert_eq!(
        TrackerResponse::from_bytes(b"d8:intervali60e5:peersi1ee").unwrap_err(),
        TrackerError::Peers
    );
    assert_eq!(
        TrackerResponse::from_bytes(b"d8:intervali60e5:peers5:abcdee").unwrap_err(),
        TrackerError::PeersLength { length: 5 }
    );
}

#[test]
fn url_is_made_of_an_encoded_query() {
    let encoded = serde_urlencoded::to_string([("a", "1 2"), ("b", "x&y")]);
    assert_eq!(
        finish_url("http://x/announce", encoded, &[0x0fu8; 20]),
        Ok(format!("http://x/announce?a=1+2&b=x%26y&info_hash={}", "%0f".repeat(20)))
    );
}

#[test]
fn url_is_refused_where_the_query_was_refused() {
    let refused = serde_urlencoded::to_string(5);
    assert!(refused.is_err());
    assert_eq!(finish_url("http://x/announce", refused, &[0u8; 20]), Err(UrlError::Query));
}
