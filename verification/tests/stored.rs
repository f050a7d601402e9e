use marisa::codec::{checksum_of, MAGIC, VERSION};
use marisa::error::{FormatError, StateError};
use marisa::keyset::Keyset;
use marisa::trie::Trie;

fn sample() -> (Trie, Vec<&'static str>) {
    let keys = vec!["apple", "app", "application", "banana", "band", "bandana", "can", ""];
    let mut keyset = Keyset::default();
    for k in &keys {
        keyset.push(k, None);
    }
    let mut trie = Trie::new();
    assert_eq!(trie.build(&mut keyset), Ok(()));
    (trie, keys)
}

fn error_of(bytes: &[u8]) -> Option<FormatError> {
    Trie::load(bytes).err()
}

#[test]
fn what_is_saved_loads_back() {
    let (trie, keys) = sample();
    let bytes = trie.save().unwrap();
    let loaded = Trie::load(&bytes).ok().unwrap();
    assert_eq!(loaded.num_keys(), keys.len());
    assert_eq!(loaded.num_nodes(), trie.num_nodes());
    assert_eq!(loaded.num_tries(), trie.num_tries());
    for k in &keys {
        assert_eq!(loaded.lookup(k.as_bytes()), trie.lookup(k.as_bytes()));
        assert!(loaded.lookup(k.as_bytes()).unwrap().is_some());
    }
    for k in ["a", "ap", "appl", "bananas", "x", "cand"] {
        assert_eq!(loaded.lookup(k.as_bytes()), Ok(None));
    }
    for id in 0..keys.len() as u32 {
        assert_eq!(loaded.reverse_lookup(id), trie.reverse_lookup(id));
    }
    assert_eq!(loaded.save().unwrap(), bytes);
}

#[test]
fn many_keys_load_back() {
    let mut keyset = Keyset::default();
    let mut all: Vec<String> = Vec::new();
    for i in 0..3000u32 {
        let k = format!("{}/{:o}", i % 13, i.wrapping_mul(40503));
        keyset.push(&k, None);
        all.push(k);
    }
    let mut trie = Trie::new();
    assert_eq!(trie.build(&mut keyset), Ok(()));
    let bytes = trie.save().unwrap();
    let loaded = Trie::load(&bytes).ok().unwrap();
    assert_eq!(loaded.num_keys(), 3000);
    for k in &all {
        let id = loaded.lookup(k.as_bytes()).unwrap();
        assert!(id.is_some());
        assert_eq!(id, trie.lookup(k.as_bytes()).unwrap());
    }
    assert_eq!(loaded.lookup(b"13/0"), Ok(None));
}

#[test]
fn stored_form_starts_with_magic_and_version() {
    let (trie, _) = sample();
    let bytes = trie.save().unwrap();
    assert_eq!(&bytes[0..4], b"MTRI");
    assert_eq!(&bytes[0..4], &MAGIC.to_le_bytes());
    assert_eq!(&bytes[4..8], &VERSION.to_le_bytes());
    assert_eq!(&bytes[8..12], &1u32.to_le_bytes());
    let n = bytes.len();
    assert_eq!(&bytes[n - 8..n - 4], &8u32.to_le_bytes());
    assert_eq!(&bytes[n - 4..], &checksum_of(&bytes, n - 4).to_le_bytes());
}

#[test]
fn stored_form_of_one_key() {
    let mut keyset = Keyset::default();
    keyset.push("ab", None);
    let mut trie = Trie::new();
    assert_eq!(trie.build(&mut keyset), Ok(()));
    let bytes = trie.save().unwrap();
    let mut want: Vec<u8> = Vec::new();
    want.extend_from_slice(b"MTRI");
    want.extend_from_slice(&1u32.to_le_bytes());
    want.extend_from_slice(&1u32.to_le_bytes());
    // two nodes; the tree 1 0 | 1 0 | 0 in five bits; the second node ends a key
    want.extend_from_slice(&2u32.to_le_bytes());
    want.extend_from_slice(&5u32.to_le_bytes());
    want.extend_from_slice(&0b00101u64.to_le_bytes());
    want.extend_from_slice(&0b00010u64.to_le_bytes());
    // first bytes, links, tails
    want.extend_from_slice(&11u32.to_le_bytes());
    want.extend_from_slice(&[0, b'a']);
    want.extend_from_slice(&0u32.to_le_bytes());
    want.extend_from_slice(&1u32.to_le_bytes());
    want.extend_from_slice(b"b");
    want.extend_from_slice(&1u32.to_le_bytes());
    let sum = checksum_of(&want, want.len());
    want.extend_from_slice(&sum.to_le_bytes());
    assert_eq!(bytes, want);
}

#[test]
fn checksum_values() {
    assert_eq!(checksum_of(b"", 0), 0x811C_9DC5);
    assert_eq!(checksum_of(b"a", 1), 0xE40C_292C);
    assert_eq!(checksum_of(b"foobar", 6), 0xBF9C_F968);
    assert_eq!(checksum_of(b"foobar", 3), checksum_of(b"foo", 3));
}

#[test]
fn a_changed_checksum_is_noticed() {
    let (trie, _) = sample();
    let bytes = trie.save().unwrap();
    let n = bytes.len();
    for at in n - 4..n {
        for bit in 0..8 {
            let mut changed = bytes.clone();
            changed[at] ^= 1 << bit;
            assert_eq!(error_of(&changed), Some(FormatError::CorruptFormat));
        }
    }
}

#[test]
fn a_changed_body_is_noticed() {
    let (trie, _) = sample();
    let bytes = trie.save().unwrap();
    for at in 8..bytes.len() - 4 {
        let mut changed = bytes.clone();
        changed[at] ^= 0x40;
        assert_eq!(error_of(&changed), Some(FormatError::CorruptFormat), "byte {}", at);
    }
}

#[test]
fn a_wrong_magic_number_is_corrupt() {
    let (trie, _) = sample();
    let mut bytes = trie.save().unwrap();
    bytes[0] = b'X';
    assert_eq!(error_of(&bytes), Some(FormatError::CorruptFormat));
}

#[test]
fn a_later_version_is_a_mismatch() {
    let (trie, _) = sample();
    let mut bytes = trie.save().unwrap();
    bytes[4] = 2;
    assert_eq!(error_of(&bytes), Some(FormatError::VersionMismatch));
    bytes[4] = 0;
    assert_eq!(error_of(&bytes), Some(FormatError::CorruptFormat));
}

#[test]
fn truncated_input_is_corrupt() {
    let (trie, _) = sample();
    let bytes = trie.save().unwrap();
    for n in 0..bytes.len() {
        assert_eq!(error_of(&bytes[..n]), Some(FormatError::CorruptFormat), "length {}", n);
    }
    let mut longer = bytes.clone();
    longer.push(0);
    assert_eq!(error_of(&longer), Some(FormatError::CorruptFormat));
}

#[test]
fn inconsistent_levels_with_a_right_checksum_are_corrupt() {
    let (trie, _) = sample();
    let bytes = trie.save().unwrap();
    let n = bytes.len();
    // a wrong number of keys
    let mut changed = bytes.clone();
    changed[n - 8] ^= 1;
    let sum = checksum_of(&changed, n - 4);
    changed[n - 4..].copy_from_slice(&sum.to_le_bytes());
    assert_eq!(error_of(&changed), Some(FormatError::CorruptFormat));
    // a tree whose bits no longer describe a tree
    let mut changed = bytes.clone();
    changed[20] ^= 0x02;
    let sum = checksum_of(&changed, n - 4);
    changed[n - 4..].copy_from_slice(&sum.to_le_bytes());
    assert_eq!(error_of(&changed), Some(FormatError::CorruptFormat));
    // no levels at all
    let mut none: Vec<u8> = Vec::new();
    none.extend_from_slice(b"MTRI");
    none.extend_from_slice(&1u32.to_le_bytes());
    none.extend_from_slice(&0u32.to_le_bytes());
    none.extend_from_slice(&0u32.to_le_bytes());
    let sum = checksum_of(&none, none.len());
    none.extend_from_slice(&sum.to_le_bytes());
    assert_eq!(error_of(&none), Some(FormatError::CorruptFormat));
}

#[test]
fn an_unbuilt_dictionary_cannot_be_saved() {
    let trie = Trie::new();
    assert_eq!(trie.save(), Err(StateError::NotBuilt));
    let (mut trie, _) = sample();
    trie.clear();
    assert_eq!(trie.save(), Err(StateError::NotBuilt));
}
