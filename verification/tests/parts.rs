use marisa::bitvec::BitVector;
use marisa::cascade::fits_within;
use marisa::error::{Error, FormatError, InputError, StateError};
use marisa::lex::{bytes_equal, bytes_less, common_prefix};
use marisa::sort::sort_keys;
use marisa::trie::{Trie, TrieState};
use marisa::keyset::Keyset;

fn bits_of(text: &str) -> BitVector {
    let mut v = BitVector::new();
    for c in text.chars() {
        v.push(c == '1');
    }
    v
}

#[test]
fn bit_vector_keeps_what_is_pushed() {
    let text = "1011001110001111000011111";
    let v = bits_of(text);
    assert_eq!(v.len(), text.len());
    for (i, c) in text.chars().enumerate() {
        assert_eq!(v.get(i), c == '1');
    }
    assert_eq!(v.count_ones(), 15);
}

#[test]
fn bit_vector_rank_counts_below_a_position() {
    let v = bits_of("10110");
    assert_eq!(v.rank(true, 0), 0);
    assert_eq!(v.rank(true, 1), 1);
    assert_eq!(v.rank(true, 2), 1);
    assert_eq!(v.rank(true, 3), 2);
    assert_eq!(v.rank(true, 5), 3);
    assert_eq!(v.rank(false, 5), 2);
    assert_eq!(v.rank(false, 2), 1);
}

#[test]
fn bit_vector_select_finds_the_nth() {
    let v = bits_of("10110");
    assert_eq!(v.select(true, 0), 0);
    assert_eq!(v.select(true, 1), 2);
    assert_eq!(v.select(true, 2), 3);
    assert_eq!(v.select(false, 0), 1);
    assert_eq!(v.select(false, 1), 4);
}

#[test]
fn bit_vector_over_many_words() {
    let mut v = BitVector::new();
    for i in 0..1000usize {
        v.push(i % 3 == 0);
    }
    assert_eq!(v.count_ones(), 334);
    assert_eq!(v.as_words().len(), 16);
    for k in 0..334usize {
        assert_eq!(v.select(true, k), 3 * k);
        assert_eq!(v.rank(true, 3 * k), k);
    }
    for k in 0..666usize {
        let pos = v.select(false, k);
        assert!(!v.get(pos));
        assert_eq!(v.rank(false, pos), k);
    }
    assert_eq!(v.rank(true, 1000), 334);
    assert_eq!(v.rank(true, 64), 22);
    assert_eq!(v.rank(true, 128), 43);
}

#[test]
fn bit_vector_from_words() {
    let v = BitVector::from_words(vec![0b1011], 4).unwrap();
    assert_eq!(v.len(), 4);
    assert!(v.get(0) && v.get(1) && !v.get(2) && v.get(3));
    assert_eq!(v.count_ones(), 3);
    // a bit set past the length, too few words, too many words
    assert!(BitVector::from_words(vec![0b10000], 4).is_none());
    assert!(BitVector::from_words(vec![], 4).is_none());
    assert!(BitVector::from_words(vec![0, 0], 64).is_none());
    assert!(BitVector::from_words(vec![u64::MAX], 64).is_some());
    assert!(BitVector::from_words(vec![], 0).is_some());
}

#[test]
fn bytes_in_dictionary_order() {
    assert!(bytes_less(b"", b"a"));
    assert!(bytes_less(b"a", b"ab"));
    assert!(bytes_less(b"ab", b"b"));
    assert!(bytes_less(b"a\x00", b"a\x01"));
    assert!(!bytes_less(b"a", b"a"));
    assert!(!bytes_less(b"b", b"ab"));
    assert!(!bytes_less(b"", b""));
    assert!(bytes_equal(b"abc", b"abc"));
    assert!(!bytes_equal(b"abc", b"ab"));
    assert!(!bytes_equal(b"abc", b"abd"));
}

#[test]
fn common_prefix_lengths() {
    assert_eq!(common_prefix(b"apple", b"application", 0), 4);
    assert_eq!(common_prefix(b"apple", b"application", 3), 4);
    assert_eq!(common_prefix(b"apple", b"apple", 0), 5);
    assert_eq!(common_prefix(b"", b"x", 0), 0);
    assert_eq!(common_prefix(b"abc", b"xbc", 0), 0);
}

#[test]
fn sorting_keeps_the_earlier_of_equal_keys_first() {
    let keys: Vec<Vec<u8>> =
        ["b", "a", "c", "a", "", "ab", "a"].iter().map(|k| k.as_bytes().to_vec()).collect();
    assert_eq!(sort_keys(&keys), vec![4, 1, 3, 6, 5, 0, 2]);
    assert_eq!(sort_keys(&Vec::new()), Vec::<usize>::new());
}

#[test]
fn keys_fit_up_to_the_limit() {
    let keys: Vec<Vec<u8>> = vec![vec![1, 2, 3], vec![], vec![4, 5, 6, 7]];
    assert!(fits_within(&keys, 7));
    assert!(fits_within(&keys, 8));
    assert!(!fits_within(&keys, 6));
    assert!(!fits_within(&keys, 0));
    assert!(fits_within(&Vec::new(), 0));
}

#[test]
fn errors_describe_themselves() {
    let all = [
        Error::Input(InputError::EmptyInput),
        Error::Input(InputError::DuplicateKey),
        Error::Input(InputError::OutOfRange),
        Error::Input(InputError::TooLarge),
        Error::Format(FormatError::CorruptFormat),
        Error::Format(FormatError::VersionMismatch),
        Error::State(StateError::NotBuilt),
        Error::State(StateError::AlreadyBuilt),
    ];
    for (i, a) in all.iter().enumerate() {
        assert!(!a.describe().is_empty());
        for b in &all[i + 1..] {
            assert_ne!(a.describe(), b.describe());
        }
    }
    assert_eq!(Error::Input(InputError::EmptyInput).describe(), "no keys to build from");
    assert_eq!(Error::Input(InputError::DuplicateKey).describe(), "duplicate key");
    assert_eq!(Error::Input(InputError::OutOfRange).describe(), "index out of range");
    assert_eq!(Error::Input(InputError::TooLarge).describe(), "keys too large");
    assert_eq!(Error::Format(FormatError::CorruptFormat).describe(), "corrupt data");
    assert_eq!(Error::Format(FormatError::VersionMismatch).describe(), "unsupported format version");
    assert_eq!(Error::State(StateError::NotBuilt).describe(), "dictionary not built");
    assert_eq!(Error::State(StateError::AlreadyBuilt).describe(), "dictionary already built");
}

#[test]
fn a_dictionary_goes_from_empty_to_built_to_cleared() {
    let mut trie = Trie::default();
    assert_eq!(trie.status(), TrieState::Empty);
    let mut keyset = Keyset::default();
    keyset.push("a", None);
    assert_eq!(trie.build(&mut keyset), Ok(()));
    assert_eq!(trie.status(), TrieState::Built);
    trie.clear();
    assert_eq!(trie.status(), TrieState::Cleared);
    assert_eq!(trie.build(&mut keyset), Ok(()));
    assert_eq!(trie.status(), TrieState::Built);
}
