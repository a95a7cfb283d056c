use bittorrent::decode::Parser;
use bittorrent::error::{BencodeError, MetadataField};
use bittorrent::peers::{Address, PeerAddress};
use bittorrent::torrent::{info_hash, piece_hashes, Torrent};
use bittorrent::tracker::{
    parse_tracker_response, url_encode, TrackerRequest, TrackerResponse,
};
use bittorrent::value::BencodeValue;
use sha1::Digest;

fn bstr(s: &[u8]) -> BencodeValue {
    BencodeValue::BString(s.to_vec())
}

fn sample_info() -> BencodeValue {
    BencodeValue::BDictionary(vec![
        (b"length".to_vec(), BencodeValue::BInteger(40960)),
        (b"name".to_vec(), bstr(b"sample.txt")),
        (b"piece length".to_vec(), BencodeValue::BInteger(32768)),
        (b"pieces".to_vec(), bstr(&[0x11u8; 40])),
    ])
}

fn sample_torrent() -> BencodeValue {
    BencodeValue::BDictionary(vec![
        (
            b"announce".to_vec(),
            bstr(b"http://tracker.example/announce"),
        ),
        (b"info".to_vec(), sample_info()),
    ])
}

#[test]
fn torrent_extraction_reads_all_fields() {
    let t = Torrent::from_value(&sample_torrent()).unwrap();
    assert_eq!(t.announce, b"http://tracker.example/announce".to_vec());
    assert_eq!(t.info.name, b"sample.txt".to_vec());
    assert_eq!(t.info.piece_length, 32768);
    assert_eq!(t.info.length, 40960);
    assert_eq!(t.info.pieces, vec![0x11u8; 40]);
}

#[test]
fn torrent_extraction_names_missing_fields() {
    assert_eq!(
        Torrent::from_value(&BencodeValue::BInteger(1)),
        Err(BencodeError::InvalidMetadata(MetadataField::Root))
    );
    assert_eq!(
        Torrent::from_value(&BencodeValue::BDictionary(Vec::new())),
        Err(BencodeError::InvalidMetadata(MetadataField::Announce))
    );
    let no_info = BencodeValue::BDictionary(vec![(b"announce".to_vec(), bstr(b"u"))]);
    assert_eq!(
        Torrent::from_value(&no_info),
        Err(BencodeError::InvalidMetadata(MetadataField::Info))
    );
    let empty_info = BencodeValue::BDictionary(vec![
        (b"announce".to_vec(), bstr(b"u")),
        (b"info".to_vec(), BencodeValue::BDictionary(Vec::new())),
    ]);
    assert_eq!(
        Torrent::from_value(&empty_info),
        Err(BencodeError::InvalidMetadata(MetadataField::Name))
    );
}

#[test]
fn torrent_extraction_rejects_ragged_piece_digests() {
    let bad = BencodeValue::BDictionary(vec![
        (b"announce".to_vec(), bstr(b"u")),
        (
            b"info".to_vec(),
            BencodeValue::BDictionary(vec![
                (b"length".to_vec(), BencodeValue::BInteger(1)),
                (b"name".to_vec(), bstr(b"f")),
                (b"piece length".to_vec(), BencodeValue::BInteger(1)),
                (b"pieces".to_vec(), bstr(&[0u8; 21])),
            ]),
        ),
    ]);
    assert_eq!(
        Torrent::from_value(&bad),
        Err(BencodeError::InvalidMetadata(MetadataField::Pieces))
    );
}

#[test]
fn torrent_new_is_empty() {
    let t = Torrent::new();
    assert!(t.announce.is_empty());
    assert!(t.info.name.is_empty());
    assert!(t.info.pieces.is_empty());
    assert_eq!(t.info.piece_length, 0);
    assert_eq!(t.info.length, 0);
}

#[test]
fn info_hash_is_sha1_of_reencoded_info() {
    // decode a canonically encoded torrent so the re-encoding reproduces
    // the original info bytes
    let info_bytes: &[u8] =
        b"d6:lengthi40960e4:name10:sample.txt12:piece lengthi32768e6:pieces40:\
          0123456789012345678901234567890123456789e";
    let mut file = Vec::new();
    file.extend_from_slice(b"d8:announce7:http://4:info");
    file.extend_from_slice(info_bytes);
    file.push(b'e');
    let mut parser = Parser::new(&file);
    let decoded = parser.parse().unwrap();
    let info = match &decoded {
        BencodeValue::BDictionary(ps) => &ps[1].1,
        _ => panic!("expected a dictionary"),
    };
    let h = info_hash(info);
    let expected: [u8; 20] = sha1::Sha1::digest(info_bytes).into();
    assert_eq!(h, expected);
}

#[test]
fn piece_hashes_split_into_twenty_byte_digests() {
    let mut pieces = Vec::new();
    pieces.extend_from_slice(&[0xaau8; 20]);
    pieces.extend_from_slice(&[0xbbu8; 20]);
    let hs = piece_hashes(&pieces).unwrap();
    assert_eq!(hs.len(), 2);
    assert_eq!(hs[0], [0xaau8; 20]);
    assert_eq!(hs[1], [0xbbu8; 20]);
    assert_eq!(
        piece_hashes(&vec![0u8; 19]),
        Err(BencodeError::InvalidMetadata(MetadataField::Pieces))
    );
}

#[test]
fn peer_list_parsing() {
    let bytes = [10, 0, 0, 1, 0x1a, 0xe1, 192, 168, 1, 2, 0, 80];
    let Address(list) = Address::from_compact(&bytes).unwrap();
    assert_eq!(list.len(), 2);
    assert_eq!(
        list[0],
        PeerAddress {
            ip: [10, 0, 0, 1],
            port: 6881
        }
    );
    assert_eq!(
        list[1],
        PeerAddress {
            ip: [192, 168, 1, 2],
            port: 80
        }
    );
}

#[test]
fn peer_list_length_must_be_multiple_of_six() {
    assert_eq!(
        Address::from_compact(&[0u8; 7]),
        Err(BencodeError::InvalidMetadata(MetadataField::Peers))
    );
}

#[test]
fn tracker_success_response() {
    let v = BencodeValue::BDictionary(vec![
        (b"complete".to_vec(), BencodeValue::BInteger(5)),
        (b"incomplete".to_vec(), BencodeValue::BInteger(2)),
        (b"interval".to_vec(), BencodeValue::BInteger(1800)),
        (b"min interval".to_vec(), BencodeValue::BInteger(60)),
        (b"peers".to_vec(), bstr(&[127, 0, 0, 1, 0x1a, 0xe1])),
    ]);
    match parse_tracker_response(&v).unwrap() {
        TrackerResponse::Success(t) => {
            assert_eq!(t.interval, 1800);
            assert_eq!(t.min_interval, 60);
            assert_eq!(t.complete, 5);
            assert_eq!(t.incomplete, 2);
            assert_eq!(t.peers.0.len(), 1);
            assert_eq!(t.peers.0[0].ip, [127, 0, 0, 1]);
            assert_eq!(t.peers.0[0].port, 6881);
        }
        other => panic!("expected a success response, got {:?}", other),
    }
}

#[test]
fn tracker_failure_response() {
    let v = BencodeValue::BDictionary(vec![(
        b"failure reason".to_vec(),
        bstr(b"unregistered torrent"),
    )]);
    assert_eq!(
        parse_tracker_response(&v).unwrap(),
        TrackerResponse::Failure(b"unregistered torrent".to_vec())
    );
}

#[test]
fn tracker_response_names_missing_fields() {
    let v = BencodeValue::BDictionary(vec![(b"peers".to_vec(), bstr(&[0u8; 6]))]);
    assert_eq!(
        parse_tracker_response(&v),
        Err(BencodeError::InvalidMetadata(MetadataField::Interval))
    );
}

#[test]
fn tracker_request_default_asks_for_compact_list() {
    let d = TrackerRequest::default();
    assert_eq!(d.compact, 1);
    assert_eq!(d.port, 0);
    assert_eq!(d.uploaded, 0);
    assert_eq!(d.downloaded, 0);
    assert_eq!(d.left, 0);
    assert!(d.peer_id.is_empty());
}

#[test]
fn url_encode_renders_percent_hex() {
    let h: [u8; 20] = [
        0x00, 0x01, 0x0a, 0x10, 0x7f, 0x80, 0xab, 0xcd, 0xef, 0xff, 0x12, 0x34, 0x56, 0x78, 0x9a,
        0xbc, 0xde, 0xf0, 0x0f, 0xa0,
    ];
    assert_eq!(
        url_encode(&h),
        "%00%01%0a%10%7f%80%ab%cd%ef%ff%12%34%56%78%9a%bc%de%f0%0f%a0"
    );
}
