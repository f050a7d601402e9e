use marisa::builder::{Config, DuplicatePolicy};
use marisa::codec::checksum_of;
use marisa::error::FormatError;
use marisa::keyset::Keyset;
use marisa::trie::Trie;

fn words() -> Vec<String> {
    let stems = ["inter", "trans", "super", "under", "over", "counter", "micro", "macro"];
    let bodies = ["nation", "action", "section", "mission", "position", "lation", "ference"];
    let ends = ["", "al", "ally", "alism", "alist", "s"];
    let mut all = Vec::new();
    for s in stems {
        for b in bodies {
            for e in ends {
                all.push(format!("{}{}{}", s, b, e));
            }
        }
    }
    all
}

fn built_with(keys: &[String], num_tries: usize, ordering: bool) -> Trie {
    let mut keyset = Keyset::default();
    for (i, k) in keys.iter().enumerate() {
        keyset.push(k, Some(1 + (i as u32 * 7) % 13));
    }
    let mut trie = Trie::new();
    let config = Config {
        num_tries,
        weight_ordering: ordering,
        duplicate_policy: DuplicatePolicy::Reject,
    };
    assert_eq!(trie.build_with(&mut keyset, &config), Ok(()));
    for (i, k) in keys.iter().enumerate() {
        assert_eq!(keyset.at(i).unwrap().assigned_id(), trie.lookup(k.as_bytes()).unwrap());
    }
    trie
}

fn check_all(trie: &Trie, keys: &[String]) {
    assert_eq!(trie.num_keys(), keys.len());
    let mut seen = vec![false; keys.len()];
    for k in keys {
        let id = trie.lookup(k.as_bytes()).unwrap().unwrap();
        assert!(!seen[id as usize]);
        seen[id as usize] = true;
        assert_eq!(trie.reverse_lookup(id).unwrap(), k.as_bytes());
    }
    for k in ["inter", "internationa", "transactionx", "", "zebra", "supersections "] {
        assert_eq!(trie.lookup(k.as_bytes()), Ok(None));
    }
}

#[test]
fn one_level_when_one_is_asked_for() {
    let keys = words();
    let trie = built_with(&keys, 1, true);
    assert_eq!(trie.num_tries(), 1);
    check_all(&trie, &keys);
}

#[test]
fn two_levels_hold_the_tails_in_a_second_tree() {
    let keys = words();
    let one = built_with(&keys, 1, true);
    let two = built_with(&keys, 2, true);
    assert_eq!(two.num_tries(), 2);
    check_all(&two, &keys);
    assert!(two.num_nodes() > one.num_nodes());
    for k in &keys {
        assert_eq!(two.lookup(k.as_bytes()), one.lookup(k.as_bytes()));
    }
}

#[test]
fn three_levels_answer_as_one_does() {
    let keys = words();
    let one = built_with(&keys, 1, false);
    let three = built_with(&keys, 3, false);
    assert!(three.num_tries() >= 2 && three.num_tries() <= 3);
    check_all(&three, &keys);
    for prefix in ["inter", "transm", "supersectional", "over", "", "q"] {
        assert_eq!(
            three.predictive_search(prefix.as_bytes()),
            one.predictive_search(prefix.as_bytes())
        );
    }
    for query in ["internationalism", "overpositions", "microx", ""] {
        assert_eq!(
            three.common_prefix_search(query.as_bytes()),
            one.common_prefix_search(query.as_bytes())
        );
    }
}

#[test]
fn many_levels_asked_for_stop_when_tails_run_out() {
    let keys = words();
    let trie = built_with(&keys, 40, true);
    assert!(trie.num_tries() >= 2);
    assert!(trie.num_tries() < 40);
    check_all(&trie, &keys);
}

#[test]
fn no_second_level_without_tails() {
    let keys: Vec<String> = ["a", "b", "c", "ab", "ac"].iter().map(|k| k.to_string()).collect();
    let trie = built_with(&keys, 3, true);
    assert_eq!(trie.num_tries(), 1);
    check_all_small(&trie, &keys);
}

fn check_all_small(trie: &Trie, keys: &[String]) {
    for k in keys {
        let id = trie.lookup(k.as_bytes()).unwrap().unwrap();
        assert_eq!(trie.reverse_lookup(id).unwrap(), k.as_bytes());
    }
}

#[test]
fn a_second_level_takes_two_tails_at_least() {
    // one label of more than one byte: "bc" behind "a"
    let keys: Vec<String> = ["abc", "b"].iter().map(|k| k.to_string()).collect();
    let trie = built_with(&keys, 2, false);
    assert_eq!(trie.num_tries(), 1);
    // two: "bc" behind "a" and "cd" behind "b"
    let keys: Vec<String> = ["abc", "bcd"].iter().map(|k| k.to_string()).collect();
    let trie = built_with(&keys, 2, false);
    assert_eq!(trie.num_tries(), 2);
    check_all_small(&trie, &keys);
    // the level below holds the two tails: a root and a node for each
    assert_eq!(trie.num_nodes(), 3 + 3);
    let trie = built_with(&keys, 1, false);
    assert_eq!(trie.num_tries(), 1);
}

#[test]
fn the_number_of_levels_is_chosen_by_the_number_of_keys() {
    let few = built_with(&words(), 0, true);
    assert_eq!(few.num_tries(), 2);
    let keys: Vec<String> = (0..200).map(|i| format!("key-number-{}", i)).collect();
    let fewer = built_with(&keys, 0, true);
    assert_eq!(fewer.num_tries(), 1);
}

#[test]
fn a_cascade_loads_back() {
    let keys = words();
    let trie = built_with(&keys, 3, true);
    let bytes = trie.save().unwrap();
    let loaded = Trie::load(&bytes).ok().unwrap();
    assert_eq!(loaded.num_tries(), trie.num_tries());
    assert_eq!(loaded.num_nodes(), trie.num_nodes());
    check_all(&loaded, &keys);
    for k in &keys {
        assert_eq!(loaded.lookup(k.as_bytes()), trie.lookup(k.as_bytes()));
    }
    assert_eq!(loaded.save().unwrap(), bytes);
}

#[test]
fn a_changed_byte_in_a_cascade_is_noticed() {
    let keys = words();
    let trie = built_with(&keys, 2, true);
    let bytes = trie.save().unwrap();
    let n = bytes.len();
    for at in (12..n - 4).step_by(7) {
        let mut changed = bytes.clone();
        changed[at] ^= 0x10;
        assert_eq!(Trie::load(&changed).err(), Some(FormatError::CorruptFormat));
    }
    for at in n - 4..n {
        let mut changed = bytes.clone();
        changed[at] ^= 0x01;
        assert_eq!(Trie::load(&changed).err(), Some(FormatError::CorruptFormat));
    }
}

#[test]
fn a_link_past_the_keys_below_is_corrupt() {
    let keys = words();
    let trie = built_with(&keys, 2, true);
    let bytes = trie.save().unwrap();
    let n = bytes.len();
    // the links of the upper level end right before the number of keys
    let mut changed = bytes.clone();
    changed[n - 12..n - 8].copy_from_slice(&u32::MAX.to_le_bytes());
    let sum = checksum_of(&changed, n - 4);
    changed[n - 4..].copy_from_slice(&sum.to_le_bytes());
    assert_eq!(Trie::load(&changed).err(), Some(FormatError::CorruptFormat));
}
