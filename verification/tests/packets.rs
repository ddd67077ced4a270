use total_order::messages::{frame, frame_packet, Packet, PacketDecodeError};

fn id_bytes(x: u64) -> Vec<u8> {
    x.to_le_bytes().to_vec()
}

#[test]
fn encode_proposal_reply() {
    let bytes = Packet::ProposalReply(0x0102030405060708, 42).encode();
    let mut expected = vec![0u8];
    expected.extend(id_bytes(0x0102030405060708));
    expected.extend(id_bytes(42));
    assert_eq!(bytes, expected);
    assert_eq!(bytes.len(), 17);
}

#[test]
fn encode_proposal_request() {
    let bytes = Packet::ProposalRequest(7, b"hello".to_vec()).encode();
    let mut expected = vec![1u8];
    expected.extend(id_bytes(7));
    expected.extend(b"hello");
    assert_eq!(bytes, expected);
}

#[test]
fn encode_agreement_ping_pong() {
    let bytes = Packet::Agreement(9, u64::MAX).encode();
    let mut expected = vec![2u8];
    expected.extend(id_bytes(9));
    expected.extend(id_bytes(u64::MAX));
    assert_eq!(bytes, expected);
    assert_eq!(Packet::Ping().encode(), vec![3u8]);
    assert_eq!(Packet::Pong().encode(), vec![4u8]);
}

#[test]
fn from_impls_encode() {
    let p = Packet::Agreement(1, 2);
    let by_ref: Vec<u8> = (&p).into();
    let by_val: Vec<u8> = p.clone().into();
    assert_eq!(by_ref, p.encode());
    assert_eq!(by_val, p.encode());
}

#[test]
fn decode_each_kind() {
    let mut b = vec![0u8];
    b.extend(id_bytes(11));
    b.extend(id_bytes(22));
    assert!(matches!(Packet::decode(&b), Ok(Packet::ProposalReply(11, 22))));
    b[0] = 2;
    assert!(matches!(Packet::decode(&b), Ok(Packet::Agreement(11, 22))));
    let mut r = vec![1u8];
    r.extend(id_bytes(5));
    r.extend(b"abc");
    match Packet::decode(&r) {
        Ok(Packet::ProposalRequest(5, msg)) => assert_eq!(msg, b"abc".to_vec()),
        other => panic!("unexpected {:?}", other),
    }
    assert!(matches!(Packet::decode(&[3]), Ok(Packet::Ping())));
    assert!(matches!(Packet::decode(&[4]), Ok(Packet::Pong())));
}

#[test]
fn decode_request_with_empty_message() {
    let mut r = vec![1u8];
    r.extend(id_bytes(5));
    match Packet::decode(&r) {
        Ok(Packet::ProposalRequest(5, msg)) => assert!(msg.is_empty()),
        other => panic!("unexpected {:?}", other),
    }
}

#[test]
fn decode_errors() {
    assert_eq!(Packet::decode(&[]).unwrap_err(), PacketDecodeError::Empty);
    assert_eq!(Packet::decode(&[5]).unwrap_err(), PacketDecodeError::UnknownType(5));
    assert_eq!(Packet::decode(&[255, 1, 2]).unwrap_err(), PacketDecodeError::UnknownType(255));
    assert_eq!(Packet::decode(&[0; 16]).unwrap_err(), PacketDecodeError::InvalidLength);
    let mut agreement = vec![2u8];
    agreement.extend([0u8; 15]);
    assert_eq!(Packet::decode(&agreement).unwrap_err(), PacketDecodeError::InvalidLength);
    let mut request = vec![1u8];
    request.extend([0u8; 7]);
    assert_eq!(Packet::decode(&request).unwrap_err(), PacketDecodeError::InvalidLength);
}

#[test]
fn try_from_decodes() {
    let bytes = vec![3u8];
    let p = Packet::try_from(bytes.as_slice());
    assert!(matches!(p, Ok(Packet::Ping())));
    let e = Packet::try_from(&[9u8][..]);
    assert_eq!(e.unwrap_err(), PacketDecodeError::UnknownType(9));
}

#[test]
fn decode_encode_roundtrip() {
    let packets = vec![
        Packet::ProposalRequest(u64::MAX, vec![0, 1, 2, 255]),
        Packet::ProposalReply(3, 4),
        Packet::Agreement(0, u64::MAX),
        Packet::Ping(),
        Packet::Pong(),
    ];
    for p in packets {
        let q = Packet::decode(&p.encode()).unwrap();
        assert_eq!(q.encode(), p.encode());
    }
}

#[test]
fn decode_ignores_trailing_bytes_after_fixed_packets() {
    let mut b = Packet::ProposalReply(1, 2).encode();
    b.extend([9, 9, 9]);
    assert!(matches!(Packet::decode(&b), Ok(Packet::ProposalReply(1, 2))));
    let mut ping = Packet::Ping().encode();
    ping.push(7);
    assert!(matches!(Packet::decode(&ping), Ok(Packet::Ping())));
    let mut req = Packet::ProposalRequest(1, vec![5]).encode();
    req.push(6);
    match Packet::decode(&req) {
        Ok(Packet::ProposalRequest(1, msg)) => assert_eq!(msg, vec![5, 6]),
        other => panic!("unexpected {:?}", other),
    }
}

#[test]
fn frame_prefixes_length() {
    assert_eq!(frame(b"abc"), vec![3, 0, 0, 0, b'a', b'b', b'c']);
    assert_eq!(frame(&[]), vec![0, 0, 0, 0]);
    let payload = vec![7u8; 300];
    let f = frame(&payload);
    assert_eq!(&f[..4], &[44, 1, 0, 0]);
    assert_eq!(&f[4..], &payload[..]);
}

#[test]
fn frame_packet_frames_encoding() {
    assert_eq!(frame_packet(&Packet::Ping()), vec![1, 0, 0, 0, 3]);
    let p = Packet::Agreement(1, 2);
    let f = frame_packet(&p);
    assert_eq!(&f[..4], &[17, 0, 0, 0]);
    assert_eq!(&f[4..], &p.encode()[..]);
}

#[test]
fn from_gives_exact_bytes() {
    assert_eq!(Vec::<u8>::from(&Packet::Ping()), vec![3u8]);
    assert_eq!(Vec::<u8>::from(Packet::Pong()), vec![4u8]);
    assert_eq!(
        Vec::<u8>::from(&Packet::Agreement(1, 2)),
        vec![2u8, 1, 0, 0, 0, 0, 0, 0, 0, 2, 0, 0, 0, 0, 0, 0, 0]
    );
    assert_eq!(
        Vec::<u8>::from(&Packet::ProposalRequest(258, vec![104u8, 105])),
        vec![1u8, 2, 1, 0, 0, 0, 0, 0, 0, 104, 105]
    );
    let p = Packet::ProposalReply(7, 8);
    let bytes = Vec::<u8>::from(&p);
    assert!(matches!(Packet::try_from(bytes.as_slice()), Ok(Packet::ProposalReply(7, 8))));
}
