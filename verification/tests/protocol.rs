use bittorrent::download::{
    block_count, parse_piece_payload, request_payload, verify_piece, DownloadAction, DownloadPhase,
    PieceDownload,
};
use bittorrent::frame::MessageDecoder;
use bittorrent::peers::{Handshake, PeerError, PeerMessage, PeerMessageType};
use sha1::Digest;

#[test]
fn handshake_wire_layout() {
    let info_hash = [7u8; 20];
    let peer_id = [9u8; 20];
    let h = Handshake::new(info_hash, peer_id);
    let bytes = h.to_bytes();
    assert_eq!(bytes.len(), 68);
    assert_eq!(bytes[0], 19);
    assert_eq!(&bytes[1..20], b"BitTorrent protocol");
    assert_eq!(&bytes[20..28], &[0u8; 8]);
    assert_eq!(&bytes[28..48], &[7u8; 20]);
    assert_eq!(&bytes[48..68], &[9u8; 20]);
}

#[test]
fn handshake_round_trip() {
    let h = Handshake::new([1u8; 20], [2u8; 20]);
    let bytes = h.to_bytes();
    let back = Handshake::from_bytes(&bytes).unwrap();
    assert_eq!(back, h);
}

#[test]
fn handshake_short_read_is_connection_closed() {
    assert_eq!(
        Handshake::from_bytes(&[0u8; 67]),
        Err(PeerError::ConnectionClosed)
    );
}

#[test]
fn handshake_validate_accepts_matching_peer() {
    let h = Handshake::new([3u8; 20], [4u8; 20]);
    assert_eq!(h.validate(&[3u8; 20]).unwrap(), [4u8; 20]);
}

#[test]
fn handshake_validate_rejects_wrong_protocol() {
    let mut h = Handshake::new([3u8; 20], [4u8; 20]);
    h.p_str[0] = b'X';
    assert_eq!(h.validate(&[3u8; 20]), Err(PeerError::ProtocolMismatch));
    let mut h2 = Handshake::new([3u8; 20], [4u8; 20]);
    h2.length = 20;
    assert_eq!(h2.validate(&[3u8; 20]), Err(PeerError::ProtocolMismatch));
}

#[test]
fn handshake_validate_rejects_wrong_info_hash() {
    let h = Handshake::new([3u8; 20], [4u8; 20]);
    assert_eq!(h.validate(&[5u8; 20]), Err(PeerError::InfoHashMismatch));
}

#[test]
fn handshake_tolerates_reserved_bytes() {
    let h = Handshake::new([3u8; 20], [4u8; 20]);
    let mut bytes = h.to_bytes();
    bytes[20] = 0xff;
    let back = Handshake::from_bytes(&bytes).unwrap();
    assert_eq!(back.validate(&[3u8; 20]).unwrap(), [4u8; 20]);
}

#[test]
fn frame_encode_interested() {
    let mut codec = MessageDecoder;
    let mut dst = Vec::new();
    codec
        .encode(
            PeerMessage {
                length: 1,
                id: PeerMessageType::Interested,
                payload: Vec::new(),
            },
            &mut dst,
        )
        .unwrap();
    assert_eq!(dst, vec![0, 0, 0, 1, 2]);
}

#[test]
fn frame_encode_keep_alive_is_bare_zero_length() {
    let mut codec = MessageDecoder;
    let mut dst = Vec::new();
    codec
        .encode(
            PeerMessage {
                length: 0,
                id: PeerMessageType::KeepAlive,
                payload: Vec::new(),
            },
            &mut dst,
        )
        .unwrap();
    assert_eq!(dst, vec![0, 0, 0, 0]);
}

#[test]
fn frame_encode_rejects_oversized_payload() {
    let mut codec = MessageDecoder;
    let mut dst = Vec::new();
    let r = codec.encode(
        PeerMessage {
            length: 0,
            id: PeerMessageType::Piece,
            payload: vec![0u8; 8 * 1024 * 1024],
        },
        &mut dst,
    );
    assert_eq!(r, Err(PeerError::FrameTooLarge));
    assert!(dst.is_empty());
}

#[test]
fn frame_decode_whole_message() {
    let mut codec = MessageDecoder;
    let mut src = vec![0, 0, 0, 3, 5, 0xaa, 0xbb];
    let m = codec.decode(&mut src).unwrap().unwrap();
    assert_eq!(m.id, PeerMessageType::Bitfield);
    assert_eq!(m.length, 3);
    assert_eq!(m.payload, vec![0xaa, 0xbb]);
    assert!(src.is_empty());
}

#[test]
fn frame_decode_leaves_following_bytes() {
    let mut codec = MessageDecoder;
    let mut src = vec![0, 0, 0, 1, 1, 0, 0, 0, 0];
    let m = codec.decode(&mut src).unwrap().unwrap();
    assert_eq!(m.id, PeerMessageType::Unchoke);
    assert_eq!(src, vec![0, 0, 0, 0]);
    let ka = codec.decode(&mut src).unwrap().unwrap();
    assert_eq!(ka.id, PeerMessageType::KeepAlive);
    assert!(src.is_empty());
}

#[test]
fn frame_split_robustness() {
    // all at once
    let whole = vec![0, 0, 0, 3, 7, 1, 2];
    let mut codec = MessageDecoder;
    let mut all = whole.clone();
    let direct = codec.decode(&mut all).unwrap().unwrap();

    // length prefix first, payload afterwards
    let mut buf = whole[..4].to_vec();
    assert_eq!(codec.decode(&mut buf).unwrap(), None);
    assert_eq!(buf.len(), 4, "an incomplete frame must not be consumed");
    buf.extend_from_slice(&whole[4..]);
    let fragmented = codec.decode(&mut buf).unwrap().unwrap();

    assert_eq!(direct, fragmented);
    assert!(buf.is_empty());
}

#[test]
fn frame_decode_needs_four_length_bytes() {
    let mut codec = MessageDecoder;
    let mut src = vec![0, 0, 0];
    assert_eq!(codec.decode(&mut src).unwrap(), None);
    assert_eq!(src, vec![0, 0, 0]);
}

#[test]
fn frame_decode_keeps_unknown_id() {
    let mut codec = MessageDecoder;
    let mut src = vec![0, 0, 0, 1, 9];
    let m = codec.decode(&mut src).unwrap().unwrap();
    assert_eq!(m.id, PeerMessageType::Unknown(9));
}

#[test]
fn block_count_rounds_up() {
    assert_eq!(block_count(1), 1);
    assert_eq!(block_count(16384), 1);
    assert_eq!(block_count(16385), 2);
    assert_eq!(block_count(32768), 2);
}

#[test]
fn request_payload_layout() {
    let p = request_payload(1, 2, 3);
    assert_eq!(p, vec![0, 0, 0, 1, 0, 0, 0, 2, 0, 0, 0, 3]);
}

#[test]
fn piece_payload_split() {
    let mut payload = vec![0, 0, 0, 5, 0, 1, 0, 0];
    payload.extend_from_slice(b"data");
    let (idx, begin, data) = parse_piece_payload(&payload).unwrap();
    assert_eq!(idx, 5);
    assert_eq!(begin, 65536);
    assert_eq!(data, b"data".to_vec());
    assert_eq!(
        parse_piece_payload(&vec![1, 2, 3]),
        Err(PeerError::ProtocolViolation)
    );
}

#[test]
fn verify_piece_accepts_matching_digest() {
    let data = b"hello piece".to_vec();
    let digest: [u8; 20] = sha1::Sha1::digest(&data).into();
    assert!(verify_piece(&data, &digest).is_ok());
}

#[test]
fn piece_verification_failure_is_never_success() {
    let data = b"hello piece".to_vec();
    let wrong = [0u8; 20];
    assert_eq!(verify_piece(&data, &wrong), Err(PeerError::IntegrityFailed));
}

fn piece_message(index: u32, begin: u32, data: &[u8]) -> PeerMessage {
    let mut payload = Vec::new();
    payload.extend_from_slice(&index.to_be_bytes());
    payload.extend_from_slice(&begin.to_be_bytes());
    payload.extend_from_slice(data);
    PeerMessage {
        length: payload.len() as u32 + 1,
        id: PeerMessageType::Piece,
        payload,
    }
}

fn plain_message(id: PeerMessageType) -> PeerMessage {
    PeerMessage {
        length: 1,
        id,
        payload: Vec::new(),
    }
}

#[test]
fn download_happy_path_over_two_blocks() {
    let piece: Vec<u8> = (0..20000u32).map(|i| (i % 251) as u8).collect();
    let digest: [u8; 20] = sha1::Sha1::digest(&piece).into();
    let mut dl = PieceDownload::new(3, piece.len() as u32, digest);

    let a1 = dl.on_message(&plain_message(PeerMessageType::Bitfield)).unwrap();
    assert_eq!(a1, DownloadAction::SendInterested);

    let a2 = dl.on_message(&plain_message(PeerMessageType::Unchoke)).unwrap();
    assert_eq!(
        a2,
        DownloadAction::SendRequest {
            index: 3,
            begin: 0,
            length: 16384
        }
    );

    let a3 = dl
        .on_message(&piece_message(3, 0, &piece[..16384]))
        .unwrap();
    assert_eq!(
        a3,
        DownloadAction::SendRequest {
            index: 3,
            begin: 16384,
            length: 20000 - 16384
        }
    );

    let a4 = dl
        .on_message(&piece_message(3, 16384, &piece[16384..]))
        .unwrap();
    match a4 {
        DownloadAction::Finished(data) => assert_eq!(data, piece),
        other => panic!("expected the finished piece, got {:?}", other),
    }
    assert_eq!(dl.phase, DownloadPhase::Complete);
}

#[test]
fn download_rejects_unexpected_messages() {
    let mut dl = PieceDownload::new(0, 100, [0u8; 20]);
    let r = dl.on_message(&plain_message(PeerMessageType::Choke));
    assert_eq!(
        r,
        Err(PeerError::UnexpectedMessage {
            expected: PeerMessageType::Bitfield,
            actual: PeerMessageType::Choke
        })
    );
    dl.on_message(&plain_message(PeerMessageType::Bitfield)).unwrap();
    let r2 = dl.on_message(&plain_message(PeerMessageType::Have));
    assert_eq!(
        r2,
        Err(PeerError::UnexpectedMessage {
            expected: PeerMessageType::Unchoke,
            actual: PeerMessageType::Have
        })
    );
}

#[test]
fn download_rejects_mismatched_piece_response() {
    let piece = vec![1u8; 100];
    let digest: [u8; 20] = sha1::Sha1::digest(&piece).into();
    let mut dl = PieceDownload::new(2, 100, digest);
    dl.on_message(&plain_message(PeerMessageType::Bitfield)).unwrap();
    dl.on_message(&plain_message(PeerMessageType::Unchoke)).unwrap();
    // wrong piece index
    let r = dl.on_message(&piece_message(1, 0, &piece));
    assert_eq!(r, Err(PeerError::ProtocolViolation));
    // wrong offset
    let r2 = dl.on_message(&piece_message(2, 4, &piece));
    assert_eq!(r2, Err(PeerError::ProtocolViolation));
    // wrong block length
    let r3 = dl.on_message(&piece_message(2, 0, &piece[..50]));
    assert_eq!(r3, Err(PeerError::ProtocolViolation));
    // the matching response still goes through
    match dl.on_message(&piece_message(2, 0, &piece)).unwrap() {
        DownloadAction::Finished(data) => assert_eq!(data, piece),
        other => panic!("expected the finished piece, got {:?}", other),
    }
}

#[test]
fn download_integrity_failure_discards_piece() {
    let piece = vec![1u8; 64];
    let mut dl = PieceDownload::new(0, 64, [0u8; 20]);
    dl.on_message(&plain_message(PeerMessageType::Bitfield)).unwrap();
    dl.on_message(&plain_message(PeerMessageType::Unchoke)).unwrap();
    let r = dl.on_message(&piece_message(0, 0, &piece));
    assert_eq!(r, Err(PeerError::IntegrityFailed));
    assert_eq!(dl.phase, DownloadPhase::Failed);
}
