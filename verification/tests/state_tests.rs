use musync::hashing::fingerprint;
use musync::state::{parse_table, serialize_table, StateTable, SyncError};

fn b(s: &str) -> Vec<u8> {
    s.as_bytes().to_vec()
}

fn key(fill: u8) -> Vec<u8> {
    vec![fill; 128]
}

#[test]
fn fingerprint_of_empty_input() {
    let h = fingerprint(&Vec::new());
    assert_eq!(
        h,
        b("cf83e1357eefb8bdf1542850d66d8007d620e4050b5715dc83f4a921d36ce9ce\
           47d0d13c5d85f2b0ff8318d2877eec2f63b931bd47417a81a538327af927da3e")
    );
}

#[test]
fn fingerprint_of_known_input() {
    let h = fingerprint(&b("abc"));
    assert_eq!(
        h,
        b("ddaf35a193617abacc417349ae20413112e6fa4e89a97ea20a9eeee64b55d39a\
           2192992a274fc1a836ba3c23a3feebbd454d4423643ce80e2a9ac94fa54ca49f")
    );
    assert_eq!(h.len(), 128);
}

#[test]
fn serialize_single_entry_exact_bytes() {
    let mut t = StateTable::new();
    t.insert(key(b'a'), b("x/y.mp3"));
    let out = serialize_table(&t);
    let mut want = key(b'a');
    want.extend_from_slice(b"x/y.mp3\n");
    assert_eq!(out, want);
}

#[test]
fn round_trip_two_entries() {
    let mut t = StateTable::new();
    t.insert(key(b'a'), b("a/b.mp3"));
    t.insert(key(b'b'), b("c/d.mp3"));
    let bytes = serialize_table(&t);
    let t2 = parse_table(&bytes).unwrap();
    assert_eq!(t2.len(), 2);
    assert_eq!(t2.get(&key(b'a')), Some(b("a/b.mp3")));
    assert_eq!(t2.get(&key(b'b')), Some(b("c/d.mp3")));
    assert_eq!(t2.get(&key(b'c')), None);
}

#[test]
fn parse_empty_input_gives_empty_table() {
    let t = parse_table(&Vec::new()).unwrap();
    assert_eq!(t.len(), 0);
}

#[test]
fn parse_short_line_is_data_corruption() {
    let r = parse_table(&b("tooshort\n"));
    assert!(matches!(r, Err(SyncError::DataCorruption)));
}

#[test]
fn parse_short_final_line_is_data_corruption() {
    let mut bytes = key(b'a');
    bytes.extend_from_slice(b"ok.mp3\n");
    bytes.extend_from_slice(b"short");
    let r = parse_table(&bytes);
    assert!(matches!(r, Err(SyncError::DataCorruption)));
}

#[test]
fn parse_without_trailing_newline() {
    let mut bytes = key(b'e');
    bytes.extend_from_slice(b"last.mp3");
    let t = parse_table(&bytes).unwrap();
    assert_eq!(t.len(), 1);
    assert_eq!(t.get(&key(b'e')), Some(b("last.mp3")));
}

#[test]
fn parse_empty_path_value() {
    let mut bytes = key(b'f');
    bytes.push(b'\n');
    let t = parse_table(&bytes).unwrap();
    assert_eq!(t.len(), 1);
    assert_eq!(t.get(&key(b'f')), Some(Vec::new()));
}

#[test]
fn insert_same_key_last_write_wins() {
    let mut t = StateTable::new();
    let first = t.insert(key(b'a'), b("one.mp3"));
    let second = t.insert(key(b'a'), b("two.mp3"));
    assert!(!first);
    assert!(second);
    assert_eq!(t.len(), 1);
    assert_eq!(t.get(&key(b'a')), Some(b("two.mp3")));
}

#[test]
fn parse_duplicate_key_keeps_later_line() {
    let mut bytes = key(b'a');
    bytes.extend_from_slice(b"one.mp3\n");
    bytes.extend(key(b'a'));
    bytes.extend_from_slice(b"two.mp3\n");
    let t = parse_table(&bytes).unwrap();
    assert_eq!(t.len(), 1);
    assert_eq!(t.get(&key(b'a')), Some(b("two.mp3")));
}
