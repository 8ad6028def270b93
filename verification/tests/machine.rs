//! The session state machine driven through the spec scenarios:
//! handshake, liveness, gap recovery and replay, bad frames, logout,
//! and sequence resets.

use fixg::machine::{build_replay, Action, Phase, SessionState};
use fixg::protocol::{
    build_logon, decode, encode_to_writer, FixMessage, FixMsgType,
};
use fixg::session::DisconnectReason;
use fixg::storage::{Direction, Journal};

fn frame_of(msg: &FixMessage) -> Vec<u8> {
    let mut out = Vec::new();
    encode_to_writer(msg, &mut out);
    out
}

fn get(msg: &FixMessage, tag: u32) -> Option<Vec<u8>> {
    msg.fields.get(tag).cloned()
}

fn active_state() -> SessionState {
    SessionState {
        phase: Phase::Active,
        out_seq: 1,
        in_seq: 0,
        hb_interval_secs: 1,
        test_req_outstanding: None,
        sender_comp_id: b"I".to_vec(),
        target_comp_id: b"A".to_vec(),
        is_initiator: true,
    }
}

fn inbound(mt: FixMsgType, seq: u32) -> FixMessage {
    let mut m = FixMessage::new(mt);
    m.set_field(49, b"A".to_vec());
    m.set_field(56, b"I".to_vec());
    m.set_field(34, seq.to_string().into_bytes());
    m
}

#[test]
fn handshake_initiator_emits_one_session_active() {
    let (mut st, logon) = SessionState::new_initiator(b"I".to_vec(), b"A".to_vec(), 1);
    assert_eq!(st.phase, Phase::Handshaking);
    assert_eq!(st.out_seq, 2);
    assert_eq!(get(&logon, 34), Some(b"1".to_vec()));
    assert_eq!(get(&logon, 49), Some(b"I".to_vec()));
    assert_eq!(get(&logon, 56), Some(b"A".to_vec()));
    assert_eq!(get(&logon, 108), Some(b"1".to_vec()));
    // the outbound Logon passes decode
    assert!(decode(&frame_of(&logon)).is_ok());

    // the peer's Logon arrives: exactly one SessionActive
    let peer = inbound(FixMsgType::Logon, 1);
    let acts = st.on_frame(&peer, true);
    assert_eq!(st.phase, Phase::Active);
    assert_eq!(st.in_seq, 1);
    let actives = acts
        .iter()
        .filter(|a| matches!(a, Action::EmitSessionActive))
        .count();
    assert_eq!(actives, 1);
}

#[test]
fn handshake_acceptor_mirrors_logon() {
    let mut st = SessionState::new_acceptor();
    let mut peer = inbound(FixMsgType::Logon, 1);
    peer.set_field(108, b"1".to_vec());
    let acts = st.on_frame(&peer, true);
    assert_eq!(st.phase, Phase::Active);
    // comp ids swap into our perspective
    assert_eq!(st.sender_comp_id, b"I".to_vec());
    assert_eq!(st.target_comp_id, b"A".to_vec());
    assert_eq!(st.hb_interval_secs, 1);
    match &acts[0] {
        Action::Transmit { msg, seq } => {
            assert_eq!(*seq, 1);
            assert_eq!(msg.msg_type, FixMsgType::Logon);
            assert_eq!(get(msg, 108), Some(b"1".to_vec()));
        }
        other => panic!("wanted the mirrored Logon first, got {:?}", other),
    }
    let actives = acts
        .iter()
        .filter(|a| matches!(a, Action::EmitSessionActive))
        .count();
    assert_eq!(actives, 1);
}

#[test]
fn handshake_acceptor_rejects_failed_auth() {
    let mut st = SessionState::new_acceptor();
    let peer = inbound(FixMsgType::Logon, 1);
    let acts = st.on_frame(&peer, false);
    assert_eq!(st.phase, Phase::Closing);
    assert_eq!(acts.len(), 1);
    match &acts[0] {
        Action::Transmit { msg, .. } => {
            assert_eq!(msg.msg_type, FixMsgType::Logout);
            assert_eq!(get(msg, 58), Some(b"Logon rejected".to_vec()));
        }
        other => panic!("wanted a Logout, got {:?}", other),
    }
}

#[test]
fn liveness_heartbeat_then_test_request_then_timeout() {
    // one interval idle: exactly one Heartbeat without 112
    let mut st = active_state();
    let acts = st.on_tick(1);
    assert_eq!(acts.len(), 1);
    match &acts[0] {
        Action::Transmit { msg, .. } => {
            assert_eq!(msg.msg_type, FixMsgType::Heartbeat);
            assert_eq!(get(msg, 112), None);
        }
        other => panic!("wanted a Heartbeat, got {:?}", other),
    }

    // two intervals idle: a TestRequest with id TR-<out_seq>, once
    let mut st = active_state();
    let acts = st.on_tick(2);
    assert_eq!(acts.len(), 1);
    match &acts[0] {
        Action::Transmit { msg, .. } => {
            assert_eq!(msg.msg_type, FixMsgType::TestRequest);
            assert_eq!(get(msg, 112), Some(b"TR-1".to_vec()));
        }
        other => panic!("wanted a TestRequest, got {:?}", other),
    }
    assert_eq!(st.test_req_outstanding, Some(b"TR-1".to_vec()));
    // while it is outstanding no second one goes out, and no
    // heartbeat either
    let again = st.on_tick(2);
    assert!(again.is_empty());
    let hb_band = st.on_tick(1);
    assert!(hb_band.is_empty());

    // three intervals idle: the session closes with Timeout
    let acts = st.on_tick(3);
    assert_eq!(st.phase, Phase::Closed);
    assert!(matches!(
        acts[0],
        Action::EmitDisconnected(DisconnectReason::Timeout)
    ));
}

#[test]
fn matching_heartbeat_clears_outstanding_test_request() {
    let mut st = active_state();
    st.on_tick(2);
    assert!(st.test_req_outstanding.is_some());
    let mut hb = inbound(FixMsgType::Heartbeat, 1);
    hb.set_field(112, b"TR-1".to_vec());
    st.on_frame(&hb, true);
    assert_eq!(st.test_req_outstanding, None);
}

#[test]
fn gap_begets_resend_request_for_missing_range() {
    // in_seq is 3; 34=7 arrives: ResendRequest 7=4, 16=6, nothing else
    let mut st = active_state();
    st.in_seq = 3;
    let msg = inbound(FixMsgType::Unknown(b"D".to_vec()), 7);
    let acts = st.on_frame(&msg, true);
    assert_eq!(st.in_seq, 3);
    assert_eq!(acts.len(), 1);
    match &acts[0] {
        Action::Transmit { msg, seq } => {
            assert_eq!(*seq, 1);
            assert_eq!(msg.msg_type, FixMsgType::ResendRequest);
            assert_eq!(get(msg, 7), Some(b"4".to_vec()));
            assert_eq!(get(msg, 16), Some(b"6".to_vec()));
        }
        other => panic!("wanted a ResendRequest, got {:?}", other),
    }
}

#[test]
fn low_sequence_poss_dup_is_ignored_and_fatal_otherwise() {
    let mut st = active_state();
    st.in_seq = 5;
    let mut dup = inbound(FixMsgType::Unknown(b"D".to_vec()), 3);
    dup.set_field(43, b"Y".to_vec());
    let acts = st.on_frame(&dup, true);
    assert!(acts.is_empty());
    assert_eq!(st.in_seq, 5);
    assert_eq!(st.phase, Phase::Active);

    let low = inbound(FixMsgType::Unknown(b"D".to_vec()), 3);
    let acts = st.on_frame(&low, true);
    assert_eq!(st.phase, Phase::Closed);
    assert!(matches!(acts[0], Action::Transmit { .. }));
    assert!(matches!(
        acts[1],
        Action::EmitDisconnected(DisconnectReason::ProtocolError)
    ));
}

#[test]
fn resend_request_becomes_replay_action() {
    let mut st = active_state();
    let mut rr = inbound(FixMsgType::ResendRequest, 1);
    rr.set_field(7, b"2".to_vec());
    rr.set_field(16, b"4".to_vec());
    let acts = st.on_frame(&rr, true);
    assert!(matches!(
        acts[0],
        Action::Replay { begin_seq_no: 2, end_seq_no: 4 }
    ));
}

#[test]
fn gap_and_replay_marks_possible_duplicates() {
    // five outbound application messages, sequence one to five
    let mut journal = Journal::new();
    let mut originals = Vec::new();
    for seqno in 1u32..=5 {
        let mut m = FixMessage::new(FixMsgType::Unknown(b"D".to_vec()));
        m.set_field(49, b"I".to_vec());
        m.set_field(56, b"A".to_vec());
        m.set_field(34, seqno.to_string().into_bytes());
        m.set_field(55, b"EUR/USD".to_vec());
        let f = frame_of(&m);
        journal.append_bytes(Direction::Outbound, Some(seqno), 1000 + seqno as u64, &f);
        originals.push(m);
    }
    let stored = journal.load_outbound_range(2, 4);
    assert_eq!(stored.len(), 3);
    let out = build_replay(&stored, 2, 4, 777, b"I", b"A");
    assert_eq!(out.len(), 3);
    for (k, f) in out.iter().enumerate() {
        let m = decode(f).expect("replayed frame decodes");
        let want_seq = (k as u32 + 2).to_string().into_bytes();
        assert_eq!(get(&m, 34), Some(want_seq));
        assert_eq!(get(&m, 43), Some(b"Y".to_vec()));
        assert_eq!(get(&m, 122), Some(b"777".to_vec()));
        // apart from 43 and 122 the payload matches the original
        let orig = &originals[k + 1];
        assert_eq!(get(&m, 55), get(orig, 55));
        assert_eq!(get(&m, 49), get(orig, 49));
        assert_eq!(get(&m, 56), get(orig, 56));
        assert_eq!(m.msg_type, orig.msg_type);
    }
}

#[test]
fn replay_gap_fills_admin_messages_and_holes() {
    let mut journal = Journal::new();
    // seq 1 is a Heartbeat (admin), seq 2 an application message,
    // seq 3 is missing entirely
    let hb = inbound(FixMsgType::Heartbeat, 1);
    journal.append_bytes(Direction::Outbound, Some(1), 1, &frame_of(&hb));
    let app = inbound(FixMsgType::Unknown(b"D".to_vec()), 2);
    journal.append_bytes(Direction::Outbound, Some(2), 2, &frame_of(&app));
    let stored = journal.load_outbound_range(1, 3);
    let out = build_replay(&stored, 1, 3, 9, b"I", b"A");
    // a gap-fill over seq 1, the app message, a trailing gap-fill
    assert_eq!(out.len(), 3);
    let g1 = decode(&out[0]).unwrap();
    assert_eq!(g1.msg_type, FixMsgType::SequenceReset);
    assert_eq!(get(&g1, 123), Some(b"Y".to_vec()));
    assert_eq!(get(&g1, 36), Some(b"2".to_vec()));
    let m2 = decode(&out[1]).unwrap();
    assert_eq!(get(&m2, 34), Some(b"2".to_vec()));
    assert_eq!(get(&m2, 43), Some(b"Y".to_vec()));
    let g2 = decode(&out[2]).unwrap();
    assert_eq!(g2.msg_type, FixMsgType::SequenceReset);
    assert_eq!(get(&g2, 36), Some(b"4".to_vec()));
}

#[test]
fn bad_checksum_frame_closes_with_protocol_error() {
    // a frame whose computed checksum is 123 but which carries 10=124
    let mut m = FixMessage::new(FixMsgType::Heartbeat);
    m.set_field(58, b"x".to_vec());
    let mut bytes = frame_of(&m);
    let n = bytes.len();
    // force the declared checksum to disagree by one
    let actual = fixg::protocol::compute_checksum(&bytes[..n - 7]);
    let wrong = actual.wrapping_add(1);
    let txt = format!("{:03}", wrong);
    bytes[n - 4..n - 1].copy_from_slice(txt.as_bytes());
    assert!(decode(&bytes).is_err());

    let mut st = active_state();
    let acts = st.on_decode_error();
    assert_eq!(st.phase, Phase::Closed);
    assert_eq!(acts.len(), 1);
    assert!(matches!(
        acts[0],
        Action::EmitDisconnected(DisconnectReason::ProtocolError)
    ));
}

#[test]
fn graceful_logout_replies_then_disconnects() {
    let mut st = active_state();
    let lo = inbound(FixMsgType::Logout, 1);
    let acts = st.on_frame(&lo, true);
    assert_eq!(st.phase, Phase::Closed);
    assert_eq!(acts.len(), 2);
    match &acts[0] {
        Action::Transmit { msg, .. } => assert_eq!(msg.msg_type, FixMsgType::Logout),
        other => panic!("wanted the Logout reply first, got {:?}", other),
    }
    assert!(matches!(
        acts[1],
        Action::EmitDisconnected(DisconnectReason::ApplicationRequested)
    ));
}

#[test]
fn sequence_reset_gap_fill_advances_in_seq() {
    let mut st = active_state();
    st.in_seq = 10;
    let mut sr = inbound(FixMsgType::SequenceReset, 11);
    sr.set_field(123, b"Y".to_vec());
    sr.set_field(36, b"15".to_vec());
    st.on_frame(&sr, true);
    assert_eq!(st.in_seq, 14);
    assert_eq!(st.phase, Phase::Active);

    // the next inbound with 34=15 is accepted
    let next = inbound(FixMsgType::Unknown(b"D".to_vec()), 15);
    let acts = st.on_frame(&next, true);
    assert_eq!(st.in_seq, 15);
    assert!(acts.iter().any(|a| matches!(a, Action::EmitInbound)));

    // a gap-fill that would move the sequence backwards is ignored
    let mut back = inbound(FixMsgType::SequenceReset, 16);
    back.set_field(123, b"Y".to_vec());
    back.set_field(36, b"3".to_vec());
    st.on_frame(&back, true);
    assert_eq!(st.in_seq, 15);

    // a hard reset moves it anywhere
    let mut hard = inbound(FixMsgType::SequenceReset, 16);
    hard.set_field(36, b"3".to_vec());
    st.on_frame(&hard, true);
    assert_eq!(st.in_seq, 2);
}

#[test]
fn test_request_is_answered_with_echoing_heartbeat() {
    let mut st = active_state();
    let mut tr = inbound(FixMsgType::TestRequest, 1);
    tr.set_field(112, b"PING".to_vec());
    let acts = st.on_frame(&tr, true);
    match &acts[0] {
        Action::Transmit { msg, .. } => {
            assert_eq!(msg.msg_type, FixMsgType::Heartbeat);
            assert_eq!(get(msg, 112), Some(b"PING".to_vec()));
        }
        other => panic!("wanted the echoing Heartbeat, got {:?}", other),
    }
    assert_eq!(st.out_seq, 2);
}

#[test]
fn peer_close_and_io_errors_disconnect() {
    let mut st = active_state();
    let acts = st.on_peer_closed();
    assert_eq!(st.phase, Phase::Closed);
    assert!(matches!(
        acts[0],
        Action::EmitDisconnected(DisconnectReason::PeerClosed)
    ));

    let mut st = active_state();
    let acts = st.on_io_error();
    assert!(matches!(
        acts[0],
        Action::EmitDisconnected(DisconnectReason::Unknown)
    ));

    let mut st = active_state();
    let acts = st.on_shutdown();
    assert!(matches!(
        acts[0],
        Action::EmitDisconnected(DisconnectReason::ApplicationRequested)
    ));
}

#[test]
fn out_of_range_logon_bytes_still_contain_comp_ids() {
    // the stamped Logon of a fresh initiator carries exactly the
    // advertised heartbeat interval
    let (_, logon) = SessionState::new_initiator(b"INIT".to_vec(), b"ACC".to_vec(), 30);
    let bytes = frame_of(&logon);
    let m = decode(&bytes).unwrap();
    assert_eq!(get(&m, 49), Some(b"INIT".to_vec()));
    assert_eq!(get(&m, 56), Some(b"ACC".to_vec()));
    assert_eq!(get(&m, 108), Some(b"30".to_vec()));
}
