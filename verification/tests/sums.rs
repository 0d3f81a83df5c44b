use firstaide::sums::{equal, Checksum, Checksums, FileRead, Sha1};

const SHA1_HELLO: &str = "aaf4c61ddcc5e8a2dabede0f3b482cd9aea9434d";
const SHA1_HI: &str = "c22b5f9178342609428d6f51b2c5af4c0bde6a42";
const SHA1_EMPTY: &str = "da39a3ee5e6b4b0d3255bfef95601890afd80709";

fn found(path: &str, contents: &str) -> (Vec<u8>, FileRead<String>) {
    (path.into(), FileRead::Contents(contents.into()))
}

fn missing(path: &str) -> (Vec<u8>, FileRead<String>) {
    (path.into(), FileRead::NotFound)
}

fn failed(path: &str, why: &str) -> (Vec<u8>, FileRead<String>) {
    (path.into(), FileRead::Failed(why.into()))
}

#[test]
fn sha1_is_the_hex_digest_of_the_bytes() {
    assert_eq!(Sha1::from(b"hello"), Sha1(SHA1_HELLO.into()));
    assert_eq!(Sha1::from(b"hi"), Sha1(SHA1_HI.into()));
    assert_eq!(Sha1::from(b""), Sha1(SHA1_EMPTY.into()));
}

#[test]
fn checksum_folds_a_missing_file_into_not_found() {
    let sum: Result<Checksum, String> = Checksum::from(b"b.txt".to_vec(), FileRead::NotFound);
    assert_eq!(sum, Ok(Checksum::NotFound(b"b.txt".to_vec())));
}

#[test]
fn checksum_hashes_the_contents() {
    let sum: Result<Checksum, String> =
        Checksum::from(b"a.txt".to_vec(), FileRead::Contents(b"hello".to_vec()));
    assert_eq!(
        sum,
        Ok(Checksum::Found(b"a.txt".to_vec(), Sha1(SHA1_HELLO.into())))
    );
}

#[test]
fn checksum_hands_back_other_failures() {
    let sum = Checksum::from(b"a.txt".to_vec(), FileRead::Failed("permission denied"));
    assert_eq!(sum, Err("permission denied"));
}

#[test]
fn checksum_path_is_the_path_given() {
    assert_eq!(
        Checksum::Found(b"a".to_vec(), Sha1(SHA1_HI.into())).path(),
        &b"a".to_vec()
    );
    assert_eq!(Checksum::NotFound(b"b".to_vec()).path(), &b"b".to_vec());
}

#[test]
fn watch_list_with_a_missing_file() {
    let before = Checksums::from(vec![found("a.txt", "hello"), missing("b.txt")]).unwrap();
    assert_eq!(
        before.as_slice(),
        &[
            Checksum::Found(b"a.txt".to_vec(), Sha1(SHA1_HELLO.into())),
            Checksum::NotFound(b"b.txt".to_vec()),
        ]
    );
    let after = Checksums::from(vec![found("a.txt", "hello"), found("b.txt", "hi")]).unwrap();
    assert_eq!(
        after.as_slice(),
        &[
            Checksum::Found(b"a.txt".to_vec(), Sha1(SHA1_HELLO.into())),
            Checksum::Found(b"b.txt".to_vec(), Sha1(SHA1_HI.into())),
        ]
    );
    assert_ne!(before.sig(), after.sig());
    assert!(!equal(&after, &before));
}

#[test]
fn checksums_stop_at_the_first_failure() {
    let sums = Checksums::from(vec![
        found("a", "x"),
        missing("b"),
        failed("c", "first"),
        found("d", "y"),
        failed("e", "second"),
    ]);
    assert_eq!(sums, Err("first".to_string()));
}

#[test]
fn checksums_of_no_files() {
    let sums = Checksums::from(Vec::<(Vec<u8>, FileRead<String>)>::new()).unwrap();
    assert_eq!(sums.as_slice(), &[]);
    assert_eq!(sums.encode(), vec![0u8; 8]);
    // SHA-1 of eight zero bytes.
    assert_eq!(sums.sig(), "05fe405753166f125559e7c9ac558654f107c7e9");
}

#[test]
fn signature_is_deterministic() {
    let one = Checksums::from(vec![found("a.txt", "hello"), missing("b.txt")]).unwrap();
    let two = Checksums::from(vec![found("a.txt", "hello"), missing("b.txt")]).unwrap();
    assert_eq!(one.sig(), two.sig());
    assert_eq!(one.sig().len(), 40);
    assert!(one
        .sig()
        .bytes()
        .all(|b| b.is_ascii_digit() || (b'a'..=b'f').contains(&b)));
}

#[test]
fn signature_changes_with_contents_and_presence() {
    let base = Checksums::from(vec![found("a.txt", "hello"), missing("b.txt")]).unwrap();
    let other_bytes = Checksums::from(vec![found("a.txt", "hellp"), missing("b.txt")]).unwrap();
    let other_presence = Checksums::from(vec![missing("a.txt"), missing("b.txt")]).unwrap();
    let other_path = Checksums::from(vec![found("a.txt", "hello"), missing("c.txt")]).unwrap();
    let other_order = Checksums::from(vec![missing("b.txt"), found("a.txt", "hello")]).unwrap();
    assert_ne!(base.sig(), other_bytes.sig());
    assert_ne!(base.sig(), other_presence.sig());
    assert_ne!(base.sig(), other_path.sig());
    assert_ne!(base.sig(), other_order.sig());
}

#[test]
fn canonical_bytes_of_a_list() {
    let sums = Checksums::from(vec![found("a", ""), missing("bc")]).unwrap();
    let mut expected: Vec<u8> = Vec::new();
    expected.extend_from_slice(&2u64.to_le_bytes());
    expected.extend_from_slice(&0u32.to_le_bytes());
    expected.extend_from_slice(&1u64.to_le_bytes());
    expected.extend_from_slice(b"a");
    expected.extend_from_slice(&40u64.to_le_bytes());
    expected.extend_from_slice(SHA1_EMPTY.as_bytes());
    expected.extend_from_slice(&1u32.to_le_bytes());
    expected.extend_from_slice(&2u64.to_le_bytes());
    expected.extend_from_slice(b"bc");
    assert_eq!(sums.encode(), expected);
}

#[test]
fn equal_compares_entries_in_order() {
    let one = Checksums::from(vec![found("a", "x"), missing("b")]).unwrap();
    let same = Checksums::from(vec![found("a", "x"), missing("b")]).unwrap();
    let reordered = Checksums::from(vec![missing("b"), found("a", "x")]).unwrap();
    let shorter = Checksums::from(vec![found("a", "x")]).unwrap();
    let changed = Checksums::from(vec![found("a", "y"), missing("b")]).unwrap();
    let present = Checksums::from(vec![found("a", "x"), found("b", "")]).unwrap();
    assert!(equal(&one, &same));
    assert!(equal(&same, &one));
    assert!(!equal(&one, &reordered));
    assert!(!equal(&one, &shorter));
    assert!(!equal(&shorter, &one));
    assert!(!equal(&one, &changed));
    assert!(!equal(&one, &present));
}

#[test]
fn into_vec_gives_the_entries() {
    let sums = Checksums::from(vec![missing("a"), missing("b")]).unwrap();
    assert_eq!(
        sums.into_vec(),
        vec![
            Checksum::NotFound(b"a".to_vec()),
            Checksum::NotFound(b"b".to_vec())
        ]
    );
}

#[test]
fn canonical_bytes_follow_the_bincode_layout() {
    let sums = Checksums::from(vec![found("dir/a.txt", "hello"), missing("b.txt")]).unwrap();
    let mut expected = bincode::serialize(&2u64).unwrap();
    expected.extend(bincode::serialize(&(0u32, "dir/a.txt", SHA1_HELLO)).unwrap());
    expected.extend(bincode::serialize(&(1u32, "b.txt")).unwrap());
    assert_eq!(sums.encode(), expected);
}
