//! Write-ahead log format behaviour: framing, replay, crash
//! tolerance.

use vectordb::wal::{decode_entry, encode_entry, encode_record, replay_bytes, WalEntry};

fn bits(xs: &[f32]) -> Vec<u32> {
    xs.iter().map(|x| x.to_bits()).collect()
}

fn append(log: &mut Vec<u8>, entry: &WalEntry) {
    let rec = encode_record(entry).unwrap();
    log.extend_from_slice(&rec);
}

#[test]
fn test_wal_write_and_replay() {
    let mut log: Vec<u8> = Vec::new();
    append(
        &mut log,
        &WalEntry::Insert {
            string_id: "v1".to_string(),
            internal_id: 0,
            data: bits(&[1.0, 2.0, 3.0]),
        },
    );
    append(
        &mut log,
        &WalEntry::Insert {
            string_id: "v2".to_string(),
            internal_id: 1,
            data: bits(&[4.0, 5.0, 6.0]),
        },
    );
    append(&mut log, &WalEntry::Delete { string_id: "v1".to_string() });

    let entries = replay_bytes(&log);
    assert_eq!(entries.len(), 3);

    assert!(matches!(&entries[0], WalEntry::Insert { string_id, .. } if string_id == "v1"));
    assert!(matches!(&entries[1], WalEntry::Insert { string_id, .. } if string_id == "v2"));
    assert!(matches!(&entries[2], WalEntry::Delete { string_id } if string_id == "v1"));
}

#[test]
fn test_wal_truncated_entry() {
    let mut log: Vec<u8> = Vec::new();
    append(
        &mut log,
        &WalEntry::Insert { string_id: "v1".to_string(), internal_id: 0, data: bits(&[1.0]) },
    );

    // Simulate a crash mid-write.
    log.extend_from_slice(&[0xFF, 0xFF, 0xFF]);

    let entries = replay_bytes(&log);
    assert_eq!(entries.len(), 1);
}

#[test]
fn test_wal_truncate() {
    let mut log: Vec<u8> = Vec::new();
    append(&mut log, &WalEntry::Checkpoint);
    assert_eq!(replay_bytes(&log).len(), 1);

    log.clear();
    assert_eq!(replay_bytes(&log).len(), 0);
}

#[test]
fn test_wal_corrupted_checksum_rejected() {
    let mut log: Vec<u8> = Vec::new();
    append(
        &mut log,
        &WalEntry::Insert { string_id: "v1".to_string(), internal_id: 0, data: bits(&[1.0]) },
    );
    append(&mut log, &WalEntry::Delete { string_id: "v1".to_string() });

    // Flip one payload byte of the second record; its checksum no
    // longer matches, so replay keeps only the first record.
    let last = log.len() - 1;
    log[last] ^= 0x01;
    let entries = replay_bytes(&log);
    assert_eq!(entries.len(), 1);
}

#[test]
fn test_wal_any_tail_truncation_is_prefix() {
    let mut log: Vec<u8> = Vec::new();
    for i in 0..4u32 {
        append(
            &mut log,
            &WalEntry::Insert {
                string_id: format!("v{}", i),
                internal_id: i as usize,
                data: bits(&[i as f32, 1.0]),
            },
        );
    }
    let full: Vec<String> = replay_bytes(&log)
        .iter()
        .map(|e| match e {
            WalEntry::Insert { string_id, .. } => string_id.clone(),
            WalEntry::Delete { string_id } => string_id.clone(),
            WalEntry::Checkpoint => String::new(),
        })
        .collect();
    assert_eq!(full.len(), 4);

    for cut in 0..=log.len() {
        let truncated: Vec<u8> = log[..cut].to_vec();
        let part: Vec<String> = replay_bytes(&truncated)
            .iter()
            .map(|e| match e {
                WalEntry::Insert { string_id, .. } => string_id.clone(),
                WalEntry::Delete { string_id } => string_id.clone(),
                WalEntry::Checkpoint => String::new(),
            })
            .collect();
        assert!(part.len() <= full.len());
        assert_eq!(part[..], full[..part.len()]);
    }
}

#[test]
fn test_wal_entry_codec_round_trip() {
    let entries = vec![
        WalEntry::Insert {
            string_id: "alpha".to_string(),
            internal_id: 7,
            data: bits(&[0.5, -1.25]),
        },
        WalEntry::Delete { string_id: "beta".to_string() },
        WalEntry::Checkpoint,
    ];
    for e in &entries {
        let payload = encode_entry(e);
        let back = decode_entry(&payload).unwrap();
        match (e, &back) {
            (
                WalEntry::Insert { string_id: a, internal_id: ai, data: ad },
                WalEntry::Insert { string_id: b, internal_id: bi, data: bd },
            ) => {
                assert_eq!(a, b);
                assert_eq!(ai, bi);
                assert_eq!(ad, bd);
            }
            (WalEntry::Delete { string_id: a }, WalEntry::Delete { string_id: b }) => {
                assert_eq!(a, b)
            }
            (WalEntry::Checkpoint, WalEntry::Checkpoint) => {}
            _ => panic!("entry changed shape across the codec"),
        }
    }
}

#[test]
fn test_wal_entry_bad_utf8_rejected() {
    let e = WalEntry::Delete { string_id: "ab".to_string() };
    let mut payload = encode_entry(&e);
    // Corrupt the string bytes with an invalid UTF-8 sequence.
    let n = payload.len();
    payload[n - 2] = 0xC0;
    payload[n - 1] = 0x00;
    assert!(decode_entry(&payload).is_none());
}
