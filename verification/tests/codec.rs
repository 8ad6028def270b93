//! Wire-codec behaviour on concrete frames: round trips, each decode
//! error, checksums, and frame extraction from a stream.

use fixg::protocol::{
    build_heartbeat, build_logon, compute_checksum, decode, encode, encode_to_writer,
    msg_type_as_str, try_extract_one, DecodeError, FixMessage, FixMsgType, SOH,
};

fn frame_of(msg: &FixMessage) -> Vec<u8> {
    let mut out = Vec::new();
    encode_to_writer(msg, &mut out);
    out
}

fn logon_ia() -> FixMessage {
    let mut m = build_logon(1, b"I", b"A");
    m.set_field(34, b"1".to_vec());
    m
}

#[test]
fn encode_logon_has_all_fields_and_trailer() {
    let bytes = frame_of(&logon_ia());
    let s = bytes.clone();
    let find = |needle: &[u8]| -> bool {
        s.windows(needle.len()).any(|w| w == needle)
    };
    assert!(find(b"8=FIX.4.4\x01"));
    assert!(find(b"35=A\x01"));
    assert!(find(b"49=I\x01"));
    assert!(find(b"56=A\x01"));
    assert!(find(b"34=1\x01"));
    assert!(find(b"108=1\x01"));
    assert_eq!(*bytes.last().unwrap(), SOH);
    // the checksum passes decode
    let m = decode(&bytes).expect("the encoder's output decodes");
    assert_eq!(m.msg_type, FixMsgType::Logon);
}

#[test]
fn decode_encode_round_trip_preserves_fields() {
    let mut m = FixMessage::new(FixMsgType::Unknown(b"D".to_vec()));
    m.set_field(49, b"SENDER".to_vec());
    m.set_field(56, b"TARGET".to_vec());
    m.set_field(34, b"17".to_vec());
    m.set_field(55, b"EUR/USD".to_vec());
    m.set_field(44, b"1.2345".to_vec());
    let bytes = frame_of(&m);
    let back = decode(&bytes).expect("round trip decodes");
    assert_eq!(back.msg_type, FixMsgType::Unknown(b"D".to_vec()));
    assert_eq!(back.fields.get(49), Some(&b"SENDER".to_vec()));
    assert_eq!(back.fields.get(56), Some(&b"TARGET".to_vec()));
    assert_eq!(back.fields.get(34), Some(&b"17".to_vec()));
    assert_eq!(back.fields.get(55), Some(&b"EUR/USD".to_vec()));
    assert_eq!(back.fields.get(44), Some(&b"1.2345".to_vec()));
    assert_eq!(back.fields.len(), 5);
    assert_eq!(back.begin_string, b"FIX.4.4".to_vec());
    // a value may contain '='
    let mut m2 = FixMessage::new(FixMsgType::Heartbeat);
    m2.set_field(58, b"a=b=c".to_vec());
    let b2 = frame_of(&m2);
    let back2 = decode(&b2).expect("value with equals decodes");
    assert_eq!(back2.fields.get(58), Some(&b"a=b=c".to_vec()));
}

#[test]
fn reencoding_a_decoded_frame_is_stable() {
    let bytes = frame_of(&logon_ia());
    let once = decode(&bytes).unwrap();
    let again = decode(&frame_of(&once)).unwrap();
    assert_eq!(once, again);
}

#[test]
fn compute_checksum_is_byte_sum_mod_256() {
    assert_eq!(compute_checksum(&[]), 0);
    assert_eq!(compute_checksum(&[1, 2, 3]), 6);
    assert_eq!(compute_checksum(&[255, 1]), 0);
    assert_eq!(compute_checksum(&[200, 200]), (400 % 256) as u8);
}

#[test]
fn decode_rejects_missing_terminator() {
    assert_eq!(decode(b""), Err(DecodeError::NotSohTerminated));
    assert_eq!(decode(b"8=FIX.4.4"), Err(DecodeError::NotSohTerminated));
}

#[test]
fn decode_rejects_missing_trailer() {
    assert_eq!(decode(b"8=FIX.4.4\x01"), Err(DecodeError::MissingTrailer));
}

#[test]
fn decode_rejects_bad_checksum_format() {
    assert_eq!(decode(b"8=FIX.4.4\x0110=xyz\x01"), Err(DecodeError::BadChecksumFormat));
    assert_eq!(decode(b"8=FIX.4.4\x0110=999\x01"), Err(DecodeError::BadChecksumFormat));
    assert_eq!(decode(b"8=FIX.4.4\x0110=\x01"), Err(DecodeError::BadChecksumFormat));
}

#[test]
fn decode_rejects_checksum_mismatch() {
    let mut bytes = frame_of(&logon_ia());
    // bump the last checksum digit, wrapping inside 0..=9
    let n = bytes.len();
    let d = bytes[n - 2];
    bytes[n - 2] = if d == b'9' { b'0' } else { d + 1 };
    match decode(&bytes) {
        Err(DecodeError::ChecksumMismatch { expected, actual }) => {
            assert_ne!(expected, actual);
        }
        other => panic!("wanted a checksum mismatch, got {:?}", other),
    }
}

#[test]
fn decode_rejects_out_of_place_headers() {
    // a frame with a correct checksum but no 8= first
    let body = b"9=5\x0135=A\x01";
    let cs = compute_checksum(body);
    let mut bytes = body.to_vec();
    bytes.extend_from_slice(format!("10={:03}\x01", cs).as_bytes());
    assert_eq!(decode(&bytes), Err(DecodeError::MissingHeader { tag: 8 }));

    let body = b"8=FIX.4.4\x0135=A\x01";
    let cs = compute_checksum(body);
    let mut bytes = body.to_vec();
    bytes.extend_from_slice(format!("10={:03}\x01", cs).as_bytes());
    assert_eq!(decode(&bytes), Err(DecodeError::MissingHeader { tag: 9 }));

    let body = b"8=FIX.4.4\x019=5\x0158=xx\x01";
    let cs = compute_checksum(body);
    let mut bytes = body.to_vec();
    bytes.extend_from_slice(format!("10={:03}\x01", cs).as_bytes());
    assert_eq!(decode(&bytes), Err(DecodeError::MissingHeader { tag: 35 }));
}

#[test]
fn decode_rejects_bad_body_length_text() {
    let body = b"8=FIX.4.4\x019=abc\x0135=A\x01";
    let cs = compute_checksum(body);
    let mut bytes = body.to_vec();
    bytes.extend_from_slice(format!("10={:03}\x01", cs).as_bytes());
    assert_eq!(decode(&bytes), Err(DecodeError::BadBodyLengthFormat));
}

#[test]
fn decode_rejects_body_length_mismatch() {
    let body = b"8=FIX.4.4\x019=99\x0135=A\x01";
    let cs = compute_checksum(body);
    let mut bytes = body.to_vec();
    bytes.extend_from_slice(format!("10={:03}\x01", cs).as_bytes());
    assert_eq!(
        decode(&bytes),
        Err(DecodeError::BodyLengthMismatch { declared: 99, computed: 5 })
    );
}

#[test]
fn decode_rejects_malformed_fields() {
    // "58xxx" has no equals sign
    let body = b"8=FIX.4.4\x019=11\x0135=A\x0158xxx\x01";
    let cs = compute_checksum(body);
    let mut bytes = body.to_vec();
    bytes.extend_from_slice(format!("10={:03}\x01", cs).as_bytes());
    assert_eq!(decode(&bytes), Err(DecodeError::MalformedField));

    let body = b"8=FIX.4.4\x019=12\x0135=A\x01xx=yyy\x01";
    let cs = compute_checksum(body);
    let mut bytes = body.to_vec();
    bytes.extend_from_slice(format!("10={:03}\x01", cs).as_bytes());
    assert_eq!(decode(&bytes), Err(DecodeError::NonNumericTag));
}

#[test]
fn decode_rejects_duplicate_tags() {
    let body = b"8=FIX.4.4\x019=15\x0135=A\x0158=a\x0158=b\x01";
    let cs = compute_checksum(body);
    let mut bytes = body.to_vec();
    bytes.extend_from_slice(format!("10={:03}\x01", cs).as_bytes());
    assert_eq!(decode(&bytes), Err(DecodeError::DuplicateTag));

    // a body field repeating a header tag is a duplicate too
    let body = b"8=FIX.4.4\x019=15\x0135=A\x018=FIX.4.2\x01";
    let cs = compute_checksum(body);
    let mut bytes = body.to_vec();
    bytes.extend_from_slice(format!("10={:03}\x01", cs).as_bytes());
    assert_eq!(decode(&bytes), Err(DecodeError::DuplicateTag));
}

#[test]
fn extract_yields_frames_in_order_and_empties_buffer() {
    let f1 = frame_of(&logon_ia());
    let f2 = frame_of(&build_heartbeat(None, b"I", b"A"));
    let mut m3 = FixMessage::new(FixMsgType::Unknown(b"D".to_vec()));
    m3.set_field(55, b"X".to_vec());
    let f3 = frame_of(&m3);

    let mut buf = bytes::BytesMut::new();
    buf.extend_from_slice(&f1);
    buf.extend_from_slice(&f2);
    buf.extend_from_slice(&f3);

    let got1 = try_extract_one(&mut buf).expect("first frame");
    let got2 = try_extract_one(&mut buf).expect("second frame");
    let got3 = try_extract_one(&mut buf).expect("third frame");
    assert_eq!(got1.as_ref(), &f1[..]);
    assert_eq!(got2.as_ref(), &f2[..]);
    assert_eq!(got3.as_ref(), &f3[..]);
    assert!(try_extract_one(&mut buf).is_none());
    assert_eq!(buf.len(), 0);
}

#[test]
fn extract_waits_for_a_full_frame() {
    let f1 = frame_of(&logon_ia());
    let mut buf = bytes::BytesMut::new();
    buf.extend_from_slice(&f1[..f1.len() - 3]);
    assert!(try_extract_one(&mut buf).is_none());
    assert_eq!(buf.len(), f1.len() - 3);
    buf.extend_from_slice(&f1[f1.len() - 3..]);
    let got = try_extract_one(&mut buf).expect("completed frame");
    assert_eq!(got.as_ref(), &f1[..]);
}

#[test]
fn extract_skips_leading_noise() {
    let f1 = frame_of(&logon_ia());
    let mut buf = bytes::BytesMut::new();
    buf.extend_from_slice(b"junk");
    buf.extend_from_slice(&f1);
    let got = try_extract_one(&mut buf).expect("frame after noise");
    assert_eq!(got.as_ref(), &f1[..]);
}

#[test]
fn msg_type_codes() {
    assert_eq!(msg_type_as_str(&FixMsgType::Logon), "A");
    assert_eq!(msg_type_as_str(&FixMsgType::Heartbeat), "0");
    assert_eq!(msg_type_as_str(&FixMsgType::TestRequest), "1");
    assert_eq!(msg_type_as_str(&FixMsgType::Logout), "5");
    assert_eq!(msg_type_as_str(&FixMsgType::ResendRequest), "2");
    assert_eq!(msg_type_as_str(&FixMsgType::SequenceReset), "4");
    assert_eq!(msg_type_as_str(&FixMsgType::Unknown(b"D".to_vec())), "?");
    let ok = encode(&logon_ia()).expect("encode succeeds");
    assert!(ok.len() > 0);
}
