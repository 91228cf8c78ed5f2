//! Durable records: key rendering, fingerprint framing, and the
//! save-then-load round trip.

use dr9k::model::{GuildMeta, MessageAccepted, MessageModel, MessageRejected};
use dr9k::numeric::{parse_u64, render_u64};
use dr9k::store::{decode_units, encode_units, GuildRecord};
use dr9k::text::{Message, Unit};

#[test]
fn render_and_parse_are_inverses() {
    for n in [0u64, 7, 10, 42, 1_000, 1_234_567_890_123_456_789, u64::MAX] {
        let s = render_u64(n);
        assert_eq!(parse_u64(s.as_str()), Some(n));
    }
    assert_eq!(render_u64(0).as_str(), "0");
    assert_eq!(render_u64(42).as_str(), "42");
    assert_eq!(render_u64(u64::MAX).as_str(), "18446744073709551615");
}

#[test]
fn parse_rejects_non_numerals() {
    assert_eq!(parse_u64(""), None);
    assert_eq!(parse_u64("12a"), None);
    assert_eq!(parse_u64("-3"), None);
    assert_eq!(parse_u64("4.2"), None);
    assert_eq!(parse_u64("18446744073709551616"), None);
    assert_eq!(parse_u64("18446744073709551615"), Some(u64::MAX));
    assert_eq!(parse_u64("0042"), Some(42));
}

#[test]
fn fingerprint_framing_is_exact() {
    let m = Message::from("hi");
    let s = encode_units(&m);
    assert_eq!(s.as_str(), "w2:hi");
    let m = Message::from("go https://a.io x");
    let s = encode_units(&m);
    assert_eq!(s.as_str(), "w2:gol12:https://a.iow1:x");
}

#[test]
fn decoding_inverts_encoding() {
    for content in ["", "hi", "Hello, World!!", "go https://a.io now", "don't stop me"] {
        let m = Message::from(content);
        let s = encode_units(&m);
        let back = decode_units(s.as_str()).expect("canonical form must decode");
        assert_eq!(back, m);
    }
}

#[test]
fn malformed_framing_is_rejected() {
    assert!(decode_units("").is_some());
    assert_eq!(decode_units("").unwrap().units, Vec::<Unit>::new());
    assert!(decode_units("x2:hi").is_none());
    assert!(decode_units("w2hi").is_none());
    assert!(decode_units("w:hi").is_none());
    assert!(decode_units("w5:hi").is_none());
    assert!(decode_units("w2:hix").is_none());
    assert!(decode_units("w18446744073709551616:hi").is_none());
}

#[test]
fn saved_keys_are_decimal_ids() {
    let mut model = MessageModel::default();
    model.toggle_monitor(42, 7);
    let saved = model.save_all();
    assert_eq!(saved.len(), 1);
    assert_eq!(saved[0].0.as_str(), "42");
    assert_eq!(saved[0].1.monitored_channels, vec![7]);
    assert_eq!(saved[0].1.ttl, 864_000_000_000);
}

#[test]
fn save_then_load_reproduces_the_registry() {
    let mut model = MessageModel::default();
    model.set_guild_ttl(1, 5_000);
    model.toggle_monitor(1, 10);
    model.toggle_monitor(1, 11);
    model.toggle_monitor(2, 20);
    assert_eq!(
        model.insert_message(Some(1), 10, false, false, "Hello, World!!", 100),
        Ok(MessageAccepted::Nominal)
    );
    assert_eq!(
        model.insert_message(Some(1), 10, false, false, "go https://a.io", 200),
        Ok(MessageAccepted::Nominal)
    );
    assert_eq!(
        model.insert_message(Some(2), 20, false, false, "other", 300),
        Ok(MessageAccepted::Nominal)
    );

    let saved = model.save_all();
    let loaded = MessageModel::load_all(&saved);

    // Same monitored sets.
    assert!(loaded.is_monitored(1, 10));
    assert!(loaded.is_monitored(1, 11));
    assert!(loaded.is_monitored(2, 20));
    assert!(!loaded.is_monitored(1, 20));

    // Same fingerprint/timestamp pairs and ttl: the loaded registry keeps
    // rejecting inside each window and accepting past it.
    let mut loaded = loaded;
    assert_eq!(
        loaded.insert_message(Some(1), 10, false, false, "hello world", 4_000),
        Err(MessageRejected::Text)
    );
    assert_eq!(
        loaded.insert_message(Some(1), 10, false, false, "hello world", 6_000),
        Ok(MessageAccepted::Nominal)
    );
    assert_eq!(
        loaded.insert_message(Some(2), 20, false, false, "other", 400),
        Err(MessageRejected::Text)
    );

    // Saving the reloaded registry writes records equivalent to the first
    // save, community by community.
    let resaved = loaded.save_all();
    assert_eq!(resaved.len(), saved.len());
    for (key, rec) in &saved {
        let again = resaved
            .iter()
            .find(|(k, _)| k == key)
            .map(|(_, r)| r)
            .expect("every community saved again");
        assert_eq!(rec.monitored_channels, again.monitored_channels);
        assert_eq!(rec.ttl, again.ttl);
        if key.as_str() == "2" {
            assert_eq!(rec.messages, again.messages);
        }
    }
}

#[test]
fn bad_records_are_skipped_without_blocking_others() {
    let good = GuildRecord {
        messages: vec![("w2:hi".to_string(), 50)],
        monitored_channels: vec![9],
        ttl: 1_000,
    };
    let bad_body = GuildRecord {
        messages: vec![("garbage".to_string(), 1)],
        monitored_channels: vec![1],
        ttl: 1_000,
    };
    let records = vec![
        ("not-a-number".to_string(), bad_body),
        (
            "3".to_string(),
            GuildRecord {
                messages: vec![("w1:a".to_string(), 1), ("broken".to_string(), 2)],
                monitored_channels: vec![1],
                ttl: 1_000,
            },
        ),
        ("7".to_string(), good),
    ];
    let mut loaded = MessageModel::load_all(&records);
    assert!(loaded.is_monitored(7, 9));
    assert!(!loaded.is_monitored(3, 1));
    // Community 7 really carries the record's history.
    assert_eq!(
        loaded.insert_message(Some(7), 9, false, false, "hi", 100),
        Err(MessageRejected::Text)
    );
}

#[test]
fn negative_window_is_malformed() {
    let rec = GuildRecord { messages: vec![], monitored_channels: vec![4], ttl: -1 };
    assert!(GuildMeta::from_record(&rec).is_none());
}

#[test]
fn duplicate_record_entries_are_malformed() {
    let rec = GuildRecord {
        messages: vec![("w1:a".to_string(), 1), ("w1:a".to_string(), 2)],
        monitored_channels: vec![],
        ttl: 0,
    };
    assert!(GuildMeta::from_record(&rec).is_none());
    let rec = GuildRecord {
        messages: vec![],
        monitored_channels: vec![5, 5],
        ttl: 0,
    };
    assert!(GuildMeta::from_record(&rec).is_none());
}
