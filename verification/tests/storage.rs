//! The journal and the index arithmetic on concrete data: replay
//! ranges, the last outbound sequence number, file stems, index lines,
//! and the base64 round trip through a stored record.

use base64::Engine;
use fixg::storage::{
    index_filter_range, index_max_seq, parse_index_line, Direction, DurabilityPolicy, Journal,
    SessionKey, StorageConfig,
};

#[test]
fn load_outbound_range_returns_the_subset_in_order() {
    let mut j = Journal::new();
    j.append_bytes(Direction::Outbound, Some(1), 10, b"one");
    j.append_bytes(Direction::Inbound, Some(9), 11, b"noise");
    j.append_bytes(Direction::Outbound, Some(2), 12, b"two");
    j.append_bytes(Direction::Outbound, None, 13, b"raw");
    j.append_bytes(Direction::Outbound, Some(3), 14, b"three");
    j.append_bytes(Direction::Outbound, Some(4), 15, b"four");

    let got = j.load_outbound_range(2, 3);
    assert_eq!(got, vec![b"two".to_vec(), b"three".to_vec()]);
    let all = j.load_outbound_range(1, 100);
    assert_eq!(
        all,
        vec![b"one".to_vec(), b"two".to_vec(), b"three".to_vec(), b"four".to_vec()]
    );
    let none = j.load_outbound_range(7, 9);
    assert!(none.is_empty());
}

#[test]
fn load_outbound_range_sorts_by_sequence_number() {
    // the journal receives the records out of order; replay sorts
    let mut j = Journal::new();
    j.append_bytes(Direction::Outbound, Some(3), 10, b"three");
    j.append_bytes(Direction::Outbound, Some(1), 11, b"one");
    j.append_bytes(Direction::Outbound, Some(2), 12, b"two");
    let got = j.load_outbound_range(1, 3);
    assert_eq!(got, vec![b"one".to_vec(), b"two".to_vec(), b"three".to_vec()]);
}

#[test]
fn last_outbound_seq_is_the_count_after_n_sends() {
    let mut j = Journal::new();
    assert_eq!(j.last_outbound_seq(), None);
    for seqno in 1u32..=7 {
        j.append_bytes(Direction::Outbound, Some(seqno), seqno as u64, b"m");
        j.append_bytes(Direction::Inbound, Some(seqno + 50), seqno as u64, b"peer");
    }
    assert_eq!(j.last_outbound_seq(), Some(7));
    // unsequenced raw sends do not move it
    j.append_bytes(Direction::Outbound, None, 99, b"raw");
    assert_eq!(j.last_outbound_seq(), Some(7));
}

#[test]
fn record_payload_survives_the_base64_trip() {
    let mut j = Journal::new();
    let payload: Vec<u8> = vec![0, 1, 2, 253, 254, 255, 65];
    j.append_bytes(Direction::Outbound, Some(5), 123, &payload);
    let key = SessionKey {
        sender_comp_id: "I".to_string(),
        target_comp_id: "A".to_string(),
    };
    let rec = j.record_at(&key, 0);
    assert_eq!(rec.direction, Direction::Outbound);
    assert_eq!(rec.seq, Some(5));
    assert_eq!(rec.ts_millis, 123);
    assert_ne!(rec.payload_b64.as_bytes(), &payload[..]);
    let back = base64::engine::general_purpose::STANDARD
        .decode(&rec.payload_b64)
        .expect("the encoder's output decodes");
    assert_eq!(back, payload);
}

#[test]
fn file_stem_sanitizes_and_joins() {
    let key = SessionKey {
        sender_comp_id: "BANK/X".to_string(),
        target_comp_id: "BROKER.7".to_string(),
    };
    assert_eq!(key.file_stem(), "BANK_X__BROKER_7");
    let plain = SessionKey {
        sender_comp_id: "I".to_string(),
        target_comp_id: "A".to_string(),
    };
    assert_eq!(plain.file_stem(), "I__A");
}

#[test]
fn index_lines_parse_and_filter() {
    assert_eq!(parse_index_line(b"12 3456"), Some((12, 3456)));
    assert_eq!(parse_index_line(b"1 0"), Some((1, 0)));
    assert_eq!(parse_index_line(b"nonsense"), None);
    assert_eq!(parse_index_line(b"12"), None);
    assert_eq!(parse_index_line(b"12 x"), None);
    assert_eq!(parse_index_line(b" 12"), None);

    let idx = vec![(1u32, 0u64), (2, 40), (3, 80), (9, 120)];
    assert_eq!(index_filter_range(&idx, 2, 3), vec![(2, 40), (3, 80)]);
    assert_eq!(index_filter_range(&idx, 4, 8), vec![]);
    // an out-of-order index is sorted by sequence number
    let shuffled = vec![(3u32, 80u64), (1, 0), (2, 40)];
    assert_eq!(index_filter_range(&shuffled, 1, 3), vec![(1, 0), (2, 40), (3, 80)]);
    assert_eq!(index_max_seq(&idx), Some(9));
    assert_eq!(index_max_seq(&Vec::new()), None);
}

#[test]
fn storage_defaults_match_the_design() {
    let cfg = StorageConfig::default();
    assert_eq!(cfg.base_dir, "data/journal");
    assert_eq!(cfg.channel_capacity, 8192);
    assert_eq!(cfg.batch_max, 1024);
    assert_eq!(cfg.flush_interval_ms, 50);
    assert_eq!(cfg.durability, DurabilityPolicy::IntervalMs(500));
}
