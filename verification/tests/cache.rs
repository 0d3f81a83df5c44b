use firstaide::cache::{Cache, LoadError};
use firstaide::env::{Change, Diff};
use firstaide::sums::{Checksums, FileRead};

fn record() -> Cache {
    let diff = Diff::from(&[
        Change::Added(b"NEW".to_vec(), b"value".to_vec()),
        Change::Changed(b"PATH".to_vec(), b"/bin".to_vec(), vec![0xff, 0x00, b'/']),
        Change::Removed(b"OLD".to_vec(), b"".to_vec()),
    ]);
    let files: Vec<(Vec<u8>, FileRead<String>)> = vec![
        (b"shell.nix".to_vec(), FileRead::Contents(b"{}".to_vec())),
        (vec![0xfe, b'x'], FileRead::NotFound),
    ];
    Cache {
        diff,
        sums: Checksums::from(files).unwrap(),
    }
}

fn empty_record() -> Cache {
    Cache {
        diff: Diff::new(),
        sums: Checksums::from(Vec::<(Vec<u8>, FileRead<String>)>::new()).unwrap(),
    }
}

#[test]
fn saved_record_loads_back() {
    let bytes = record().save();
    let loaded: Result<Cache, LoadError<String>> = Cache::load(Ok(bytes));
    assert_eq!(loaded, Ok(record()));
}

#[test]
fn empty_record_is_two_empty_lists() {
    let bytes = empty_record().save();
    assert_eq!(bytes, vec![0u8; 16]);
    let loaded: Result<Cache, LoadError<String>> = Cache::load(Ok(bytes));
    assert_eq!(loaded, Ok(empty_record()));
}

#[test]
fn layout_of_a_record() {
    let cache = Cache {
        diff: Diff::from(&[
            Change::Added(b"A".to_vec(), b"1".to_vec()),
            Change::Changed(b"B".to_vec(), b"2".to_vec(), b"33".to_vec()),
            Change::Removed(b"C".to_vec(), b"".to_vec()),
        ]),
        sums: Checksums::from(vec![(b"f".to_vec(), FileRead::<String>::NotFound)]).unwrap(),
    };
    let mut expected: Vec<u8> = Vec::new();
    expected.extend_from_slice(&3u64.to_le_bytes());
    expected.extend_from_slice(&0u32.to_le_bytes());
    expected.extend_from_slice(&1u64.to_le_bytes());
    expected.extend_from_slice(b"A");
    expected.extend_from_slice(&1u64.to_le_bytes());
    expected.extend_from_slice(b"1");
    expected.extend_from_slice(&1u32.to_le_bytes());
    expected.extend_from_slice(&1u64.to_le_bytes());
    expected.extend_from_slice(b"B");
    expected.extend_from_slice(&1u64.to_le_bytes());
    expected.extend_from_slice(b"2");
    expected.extend_from_slice(&2u64.to_le_bytes());
    expected.extend_from_slice(b"33");
    expected.extend_from_slice(&2u32.to_le_bytes());
    expected.extend_from_slice(&1u64.to_le_bytes());
    expected.extend_from_slice(b"C");
    expected.extend_from_slice(&0u64.to_le_bytes());
    expected.extend_from_slice(&1u64.to_le_bytes());
    expected.extend_from_slice(&1u32.to_le_bytes());
    expected.extend_from_slice(&1u64.to_le_bytes());
    expected.extend_from_slice(b"f");
    assert_eq!(cache.save(), expected);
}

#[test]
fn truncated_bytes_are_rejected() {
    let bytes = record().save();
    for cut in 0..bytes.len() {
        assert!(Cache::decode(&bytes[..cut]).is_none(), "cut at {}", cut);
    }
    assert!(Cache::decode(&bytes).is_some());
}

#[test]
fn trailing_bytes_are_rejected() {
    let mut bytes = record().save();
    bytes.push(0);
    let loaded: Result<Cache, LoadError<String>> = Cache::load(Ok(bytes));
    assert_eq!(loaded, Err(LoadError::Decode));
}

#[test]
fn foreign_bytes_are_rejected() {
    assert!(Cache::decode(b"").is_none());
    assert!(Cache::decode(b"#!/bin/sh\necho hello\n").is_none());
    assert!(Cache::decode(&[0xff; 64]).is_none());
    // One change of an unknown kind.
    let mut bytes: Vec<u8> = Vec::new();
    bytes.extend_from_slice(&1u64.to_le_bytes());
    bytes.extend_from_slice(&3u32.to_le_bytes());
    bytes.extend_from_slice(&0u64.to_le_bytes());
    bytes.extend_from_slice(&0u64.to_le_bytes());
    bytes.extend_from_slice(&0u64.to_le_bytes());
    assert!(Cache::decode(&bytes).is_none());
}

#[test]
fn digest_must_be_text() {
    let mut bytes: Vec<u8> = Vec::new();
    bytes.extend_from_slice(&0u64.to_le_bytes());
    bytes.extend_from_slice(&1u64.to_le_bytes());
    bytes.extend_from_slice(&0u32.to_le_bytes());
    bytes.extend_from_slice(&1u64.to_le_bytes());
    bytes.extend_from_slice(b"p");
    bytes.extend_from_slice(&2u64.to_le_bytes());
    let mut good = bytes.clone();
    good.extend_from_slice(b"ab");
    assert!(Cache::decode(&good).is_some());
    let mut bad = bytes.clone();
    bad.extend_from_slice(&[0xc3, 0x28]);
    assert!(Cache::decode(&bad).is_none());
}

#[test]
fn read_failure_is_handed_back() {
    let loaded = Cache::load(Err("no such file"));
    assert_eq!(loaded, Err(LoadError::Read("no such file")));
}

#[test]
fn fallback_is_used_when_the_first_place_fails() {
    let good = record().save();
    let other = empty_record().save();
    // The first place holds a record: it wins.
    assert_eq!(
        Cache::load_with_fallback(Ok::<_, String>(good.clone()), Ok(other.clone())),
        Ok(record())
    );
    // The first place cannot be read.
    assert_eq!(
        Cache::load_with_fallback(Err("missing".to_string()), Ok(other.clone())),
        Ok(empty_record())
    );
    // The first place holds no record.
    assert_eq!(
        Cache::load_with_fallback(Ok::<_, String>(b"junk".to_vec()), Ok(good.clone())),
        Ok(record())
    );
    // Neither place helps: the error is that of the second.
    assert_eq!(
        Cache::load_with_fallback(Err("first".to_string()), Err("second".to_string())),
        Err(LoadError::Read("second".to_string()))
    );
    assert_eq!(
        Cache::load_with_fallback(Err("first".to_string()), Ok(b"junk".to_vec())),
        Err(LoadError::Decode)
    );
}
