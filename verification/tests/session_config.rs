//! Configuration surfaces: the session builder's required settings
//! and defaults, client configuration, admin-message conversions, and
//! error texts.

use fixg::config::{AcceptAllAuth, AsyncRuntime, AuthStrategy, FixClientConfig};
use fixg::error::FixgError;
use fixg::messages::AdminMessage;
use fixg::protocol::{FixMessage, FixMsgType};
use fixg::session::SessionConfig;

#[test]
fn builder_collects_settings_and_defaults_heartbeat() {
    let cfg = SessionConfig::builder()
        .host("127.0.0.1".to_string())
        .port(4050)
        .sender_comp_id("I".to_string())
        .target_comp_id("A".to_string())
        .heartbeat_interval_secs(1)
        .build()
        .expect("a complete configuration builds");
    assert_eq!(cfg.host, "127.0.0.1");
    assert_eq!(cfg.port, 4050);
    assert_eq!(cfg.sender_comp_id, "I");
    assert_eq!(cfg.target_comp_id, "A");
    assert_eq!(cfg.heartbeat_interval_secs, 1);

    let defaulted = SessionConfig::builder()
        .host("h".to_string())
        .port(1)
        .sender_comp_id("s".to_string())
        .target_comp_id("t".to_string())
        .build()
        .unwrap();
    assert_eq!(defaulted.heartbeat_interval_secs, 30);
}

#[test]
fn builder_rejects_each_missing_setting() {
    let e = SessionConfig::builder().build().unwrap_err();
    assert_eq!(e, FixgError::InvalidConfig("host missing".to_string()));

    let e = SessionConfig::builder().host("h".to_string()).build().unwrap_err();
    assert_eq!(e, FixgError::InvalidConfig("port missing".to_string()));

    let e = SessionConfig::builder()
        .host("h".to_string())
        .port(1)
        .build()
        .unwrap_err();
    assert_eq!(e, FixgError::InvalidConfig("sender_comp_id missing".to_string()));

    let e = SessionConfig::builder()
        .host("h".to_string())
        .port(1)
        .sender_comp_id("s".to_string())
        .build()
        .unwrap_err();
    assert_eq!(e, FixgError::InvalidConfig("target_comp_id missing".to_string()));
}

#[test]
fn error_messages_carry_their_detail() {
    assert_eq!(
        FixgError::InvalidConfig("host missing".to_string()).message(),
        "Invalid configuration: host missing"
    );
    assert_eq!(FixgError::ChannelClosed.message(), "Channel closed unexpectedly");
    assert_eq!(FixgError::Io("broken pipe".to_string()).message(), "I/O error: broken pipe");
    assert_eq!(FixgError::Protocol("bad frame".to_string()).message(), "Protocol error: bad frame");
    assert_eq!(FixgError::Session("gone".to_string()).message(), "Session error: gone");
}

#[test]
fn client_config_defaults_to_the_pooled_runtime() {
    let cfg = FixClientConfig::new(7);
    assert_eq!(cfg.library_id, 7);
    assert_eq!(cfg.async_runtime, AsyncRuntime::MultiThread);
    assert!(AcceptAllAuth.validate_logon("anyone", "anywhere"));
}

#[test]
fn admin_round_trip_through_fix_message() {
    let admin = AdminMessage::ResendRequest { begin_seq_no: 2, end_seq_no: 4 };
    let fix = admin.clone().into_fix(b"I", b"A");
    assert_eq!(fix.msg_type, FixMsgType::ResendRequest);
    assert_eq!(fix.fields.get(7), Some(&b"2".to_vec()));
    assert_eq!(fix.fields.get(16), Some(&b"4".to_vec()));
    assert_eq!(fix.fields.get(49), Some(&b"I".to_vec()));
    assert_eq!(fix.fields.get(56), Some(&b"A".to_vec()));
    let back = AdminMessage::try_from(&fix).expect("typed content reads back");
    assert_eq!(back, admin);

    let admin = AdminMessage::SequenceReset { gap_fill_flag: Some(true), new_seq_no: 15 };
    let fix = admin.clone().into_fix(b"I", b"A");
    assert_eq!(fix.fields.get(123), Some(&b"Y".to_vec()));
    assert_eq!(fix.fields.get(36), Some(&b"15".to_vec()));
    let back = AdminMessage::try_from(&fix).unwrap();
    assert_eq!(back, admin);

    let admin = AdminMessage::Logout { text: Some(b"bye".to_vec()), session_status: Some(4) };
    let fix = admin.into_fix(b"I", b"A");
    assert_eq!(fix.fields.get(58), Some(&b"bye".to_vec()));
    assert_eq!(fix.fields.get(1409), Some(&b"4".to_vec()));
}

#[test]
fn admin_try_from_rejects_what_it_must() {
    let unknown = FixMessage::new(FixMsgType::Unknown(b"D".to_vec()));
    assert!(AdminMessage::try_from(&unknown).is_err());

    let bare_tr = FixMessage::new(FixMsgType::TestRequest);
    assert!(AdminMessage::try_from(&bare_tr).is_err());

    let mut rr = FixMessage::new(FixMsgType::ResendRequest);
    rr.set_field(7, b"2".to_vec());
    assert!(AdminMessage::try_from(&rr).is_err());

    let bare_sr = FixMessage::new(FixMsgType::SequenceReset);
    assert!(AdminMessage::try_from(&bare_sr).is_err());

    let mut hb = FixMessage::new(FixMsgType::Heartbeat);
    hb.set_field(112, b"id".to_vec());
    let a = AdminMessage::try_from(&hb).unwrap();
    assert_eq!(a, AdminMessage::Heartbeat { test_req_id: Some(b"id".to_vec()) });
}
