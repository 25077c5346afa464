use bifrost::persistence::{decode_cache_file, encode_cache_file, LoadError};
use bifrost::snapshot::{Substance, SubstanceSnapshot};

fn record_bytes(name: &str, url: &str) -> Vec<u8> {
    format!("{}|{}", name, url).into_bytes()
}

fn substance_of(bytes: &[u8]) -> Substance {
    let text = String::from_utf8(bytes.to_vec()).unwrap();
    let mut parts = text.splitn(2, '|');
    Substance {
        name: parts.next().map(|s| s.to_string()),
        url: parts.next().map(|s| s.to_string()),
        ..Default::default()
    }
}

#[test]
fn test_persist_and_load() {
    let records = vec![
        record_bytes("LSD", "https://example.com/lsd"),
        record_bytes("MDMA", "https://example.com/mdma"),
    ];
    let bytes = encode_cache_file(1_700_000_000_000, &records);
    let loaded = decode_cache_file(&bytes).unwrap();
    assert_eq!(loaded.records.len(), 2);
    let snapshot = SubstanceSnapshot::build(loaded.records.iter().map(|r| substance_of(r)).collect());
    assert!(snapshot.get_by_name("lsd").is_some());
    assert!(snapshot.get_by_name("mdma").is_some());
    assert_eq!(loaded.created_at_ms, 1_700_000_000_000);
    assert_eq!(loaded.version, 1);
}

#[test]
fn test_checksum_validation() {
    let records = vec![record_bytes("Test", "")];
    let mut bytes = encode_cache_file(5, &records);
    let last = bytes.len() - 1;
    bytes[last] ^= 0xFF;
    assert_eq!(decode_cache_file(&bytes).err(), Some(LoadError::ChecksumFailed));
}

#[test]
fn load_rejects_short_newer_and_miscounted_files() {
    assert_eq!(decode_cache_file(&vec![0u8; 10]).err(), Some(LoadError::Corrupt));
    let records = vec![record_bytes("A", "a"), record_bytes("B", "b")];
    let good = encode_cache_file(7, &records);
    let mut newer = good.clone();
    newer[0] = 2;
    assert_eq!(decode_cache_file(&newer).err(), Some(LoadError::VersionTooNew(2)));
    let mut miscounted = good.clone();
    miscounted[12] = 3;
    assert_eq!(
        decode_cache_file(&miscounted).err(),
        Some(LoadError::CountMismatch { declared: 3, actual: 2 })
    );
    let mut truncated = good.clone();
    truncated.pop();
    assert_eq!(decode_cache_file(&truncated).err(), Some(LoadError::ChecksumFailed));
}

#[test]
fn any_change_in_records_section_fails_checksum() {
    let records = vec![record_bytes("A", "a"), record_bytes("B", "b")];
    let good = encode_cache_file(7, &records);
    for i in 84..good.len() {
        let mut bad = good.clone();
        bad[i] ^= 0x01;
        assert_eq!(decode_cache_file(&bad).err(), Some(LoadError::ChecksumFailed), "byte {}", i);
    }
}

#[test]
fn empty_snapshot_round_trips() {
    let bytes = encode_cache_file(0, &Vec::new());
    assert_eq!(bytes.len(), 84);
    // SHA-256 of the empty input.
    assert_eq!(
        &bytes[20..84],
        b"e3b0c44298fc1c149afbf4c8996fb92427ae41e4649b934ca495991b7852b855"
    );
    let loaded = decode_cache_file(&bytes).unwrap();
    assert!(loaded.records.is_empty());
}
