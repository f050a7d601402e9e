use marisa::builder::{merged_weights, Config, DuplicatePolicy};
use marisa::error::{Error, InputError, StateError};
use marisa::keyset::Keyset;
use marisa::trie::{Match, Trie};

fn units(weight: f32) -> u32 {
    (weight * 1000.0).round() as u32
}

fn keyset_of(keys: &[&str]) -> Keyset {
    let mut keyset = Keyset::default();
    for k in keys {
        keyset.push(k, None);
    }
    keyset
}

fn built(keys: &[&str]) -> (Trie, Keyset) {
    let mut keyset = keyset_of(keys);
    let mut trie = Trie::new();
    assert_eq!(trie.build(&mut keyset), Ok(()));
    (trie, keyset)
}

fn keys_of(matches: &[Match]) -> Vec<Vec<u8>> {
    let mut keys: Vec<Vec<u8>> = matches.iter().map(|m| m.key.clone()).collect();
    keys.sort();
    keys
}

#[test]
fn example_fufi_fi_fu() {
    let mut keyset = Keyset::default();
    keyset.push("fufi", Some(units(0.8)));
    keyset.push("fi", Some(units(0.5)));
    keyset.push("fu", Some(units(1.0)));
    let mut trie = Trie::new();
    assert_eq!(trie.build(&mut keyset), Ok(()));
    assert_eq!(trie.num_keys(), 3);
    assert!(trie.lookup(b"fu").unwrap().is_some());
    assert_eq!(trie.lookup(b"f"), Ok(None));
    let found = trie.predictive_search(b"fu").unwrap();
    assert_eq!(keys_of(&found), vec![b"fu".to_vec(), b"fufi".to_vec()]);
}

#[test]
fn lookup_finds_exactly_the_keys() {
    let keys = ["apple", "app", "application", "banana", "band", "bandana", "can", ""];
    let (trie, _) = built(&keys);
    assert_eq!(trie.num_keys(), keys.len());
    for k in keys {
        assert!(trie.lookup(k.as_bytes()).unwrap().is_some(), "{}", k);
    }
    for k in ["a", "ap", "appl", "apples", "ban", "bandan", "bandanas", "c", "ca", "cane", "x"] {
        assert_eq!(trie.lookup(k.as_bytes()), Ok(None), "{}", k);
    }
}

#[test]
fn identifiers_are_dense() {
    let keys = ["apple", "app", "application", "banana", "band", "bandana", "can"];
    let (trie, _) = built(&keys);
    let mut ids: Vec<u32> = keys.iter().map(|k| trie.lookup(k.as_bytes()).unwrap().unwrap()).collect();
    ids.sort();
    assert_eq!(ids, vec![0, 1, 2, 3, 4, 5, 6]);
}

#[test]
fn reverse_lookup_gives_the_key_back() {
    let keys = ["apple", "app", "application", "banana", "band", "bandana", "can"];
    let (trie, _) = built(&keys);
    for k in keys {
        let id = trie.lookup(k.as_bytes()).unwrap().unwrap();
        assert_eq!(trie.reverse_lookup(id), Ok(k.as_bytes().to_vec()));
    }
    for id in 0..7u32 {
        let key = trie.reverse_lookup(id).unwrap();
        assert_eq!(trie.lookup(&key), Ok(Some(id)));
    }
    assert_eq!(trie.reverse_lookup(7), Err(Error::Input(InputError::OutOfRange)));
}

#[test]
fn build_tells_each_key_its_identifier() {
    let keys = ["b", "a", "ab", "c"];
    let (trie, keyset) = built(&keys);
    for (i, k) in keys.iter().enumerate() {
        let record = keyset.at(i).unwrap();
        assert_eq!(record.str().unwrap(), *k);
        assert_eq!(record.assigned_id(), trie.lookup(k.as_bytes()).unwrap());
    }
}

#[test]
fn predictive_search_gives_the_keys_with_the_prefix() {
    let keys = ["apple", "app", "application", "banana", "band", "bandana", "can"];
    let (trie, _) = built(&keys);
    let found = trie.predictive_search(b"app").unwrap();
    assert_eq!(keys_of(&found), vec![b"app".to_vec(), b"apple".to_vec(), b"application".to_vec()]);
    for m in &found {
        assert_eq!(trie.lookup(&m.key), Ok(Some(m.id)));
    }
    for pair in found.windows(2) {
        assert!(pair[0].id < pair[1].id);
    }
    let found = trie.predictive_search(b"appl").unwrap();
    assert_eq!(keys_of(&found), vec![b"apple".to_vec(), b"application".to_vec()]);
    let found = trie.predictive_search(b"bandana").unwrap();
    assert_eq!(keys_of(&found), vec![b"bandana".to_vec()]);
    let found = trie.predictive_search(b"").unwrap();
    assert_eq!(found.len(), 7);
    assert_eq!(trie.predictive_search(b"bandanas").unwrap(), vec![]);
    assert_eq!(trie.predictive_search(b"x").unwrap(), vec![]);
    assert_eq!(trie.predictive_search(b"apq").unwrap(), vec![]);
}

#[test]
fn common_prefix_search_gives_the_keys_that_start_the_query() {
    let keys = ["a", "app", "apple", "applet", "b", ""];
    let (trie, _) = built(&keys);
    let found = trie.common_prefix_search(b"apples").unwrap();
    let got: Vec<Vec<u8>> = found.iter().map(|m| m.key.clone()).collect();
    assert_eq!(got, vec![b"".to_vec(), b"a".to_vec(), b"app".to_vec(), b"apple".to_vec()]);
    for m in &found {
        assert_eq!(trie.lookup(&m.key), Ok(Some(m.id)));
    }
    let found = trie.common_prefix_search(b"bx").unwrap();
    let got: Vec<Vec<u8>> = found.iter().map(|m| m.key.clone()).collect();
    assert_eq!(got, vec![b"".to_vec(), b"b".to_vec()]);
    let found = trie.common_prefix_search(b"").unwrap();
    assert_eq!(found.len(), 1);
}

#[test]
fn duplicates_are_rejected() {
    let mut keyset = keyset_of(&["a", "a"]);
    let mut trie = Trie::new();
    assert_eq!(trie.build(&mut keyset), Err(Error::Input(InputError::DuplicateKey)));
    assert_eq!(trie.num_keys(), 0);
    assert_eq!(trie.lookup(b"a"), Err(StateError::NotBuilt));
    assert_eq!(keyset.at(0).unwrap().assigned_id(), None);
}

#[test]
fn duplicates_are_rejected_when_apart() {
    let mut keyset = keyset_of(&["b", "a", "c", "a0", "a"]);
    let mut trie = Trie::new();
    assert_eq!(trie.build(&mut keyset), Err(Error::Input(InputError::DuplicateKey)));
}

#[test]
fn duplicates_are_merged_on_request() {
    let mut keyset = keyset_of(&["a", "a"]);
    let mut trie = Trie::new();
    let config = Config { duplicate_policy: DuplicatePolicy::MergeSumWeights, ..Config::default() };
    assert_eq!(trie.build_with(&mut keyset, &config), Ok(()));
    assert_eq!(trie.num_keys(), 1);
    assert_eq!(trie.lookup(b"a"), Ok(Some(0)));
    assert_eq!(keyset.at(0).unwrap().assigned_id(), Some(0));
    assert_eq!(keyset.at(1).unwrap().assigned_id(), Some(0));
    // the keys given keep their own weights; together they weigh 2.0
    assert_eq!(keyset.num_keys(), 2);
    assert_eq!(keyset.at(0).unwrap().weight(), 1000);
    assert_eq!(keyset.at(1).unwrap().weight(), 1000);
    assert_eq!(merged_weights(&keyset), vec![2000, 2000]);
}

#[test]
fn merged_duplicates_carry_their_weights_together() {
    let mut keyset = Keyset::default();
    keyset.push("b", Some(units(0.25)));
    keyset.push("a", Some(units(0.8)));
    keyset.push("b", Some(units(0.5)));
    keyset.push("b", None);
    keyset.push("c", Some(u32::MAX));
    keyset.push("c", Some(7));
    let mut trie = Trie::new();
    let config = Config { duplicate_policy: DuplicatePolicy::MergeSumWeights, ..Config::default() };
    assert_eq!(trie.build_with(&mut keyset, &config), Ok(()));
    assert_eq!(trie.num_keys(), 3);
    let weights: Vec<u32> = (0..6).map(|i| keyset.at(i).unwrap().weight()).collect();
    assert_eq!(weights, vec![250, 800, 500, 1000, u32::MAX, 7]);
    assert_eq!(merged_weights(&keyset), vec![1750, 800, 1750, 1750, u32::MAX, u32::MAX]);
    let texts: Vec<String> =
        (0..6).map(|i| keyset.at(i).unwrap().str().unwrap().to_string()).collect();
    assert_eq!(texts, vec!["b", "a", "b", "b", "c", "c"]);
    let ids: Vec<Option<u32>> = (0..6).map(|i| keyset.at(i).unwrap().assigned_id()).collect();
    assert_eq!(ids[0], ids[2]);
    assert_eq!(ids[0], ids[3]);
    assert_eq!(ids[4], ids[5]);
    assert_ne!(ids[0], ids[1]);
    assert_ne!(ids[0], ids[4]);
}

#[test]
fn merged_weights_of_distinct_keys_are_their_own() {
    let mut keyset = Keyset::default();
    keyset.push("x", Some(3));
    keyset.push("y", None);
    assert_eq!(merged_weights(&keyset), vec![3, 1000]);
    assert_eq!(merged_weights(&Keyset::default()), Vec::<u32>::new());
}

#[test]
fn a_failed_build_leaves_the_keys_as_they_were() {
    let mut keyset = Keyset::default();
    keyset.push("a", Some(5));
    keyset.push("a", Some(6));
    let mut trie = Trie::new();
    assert_eq!(trie.build(&mut keyset), Err(Error::Input(InputError::DuplicateKey)));
    assert_eq!(keyset.num_keys(), 2);
    assert_eq!(keyset.at(0).unwrap().weight(), 5);
    assert_eq!(keyset.at(1).unwrap().weight(), 6);
    assert_eq!(keyset.at(0).unwrap().assigned_id(), None);
}

#[test]
fn the_number_of_keys_is_that_of_distinct_byte_strings() {
    let mut keyset = keyset_of(&["b", "a", "b", "c", "a", "b"]);
    let mut trie = Trie::new();
    let config = Config { duplicate_policy: DuplicatePolicy::MergeSumWeights, ..Config::default() };
    assert_eq!(trie.build_with(&mut keyset, &config), Ok(()));
    assert_eq!(trie.num_keys(), 3);
    let (trie, _) = built(&["b", "a", "c"]);
    assert_eq!(trie.num_keys(), 3);
}

#[test]
fn default_configuration() {
    let config = Config::default();
    assert_eq!(config.num_tries, 0);
    assert!(config.weight_ordering);
    assert_eq!(config.duplicate_policy, DuplicatePolicy::Reject);
}

#[test]
fn heavier_siblings_come_first_when_ordering_by_weight() {
    let mut keyset = Keyset::default();
    keyset.push("a", Some(1));
    keyset.push("b", Some(10));
    keyset.push("c", Some(5));
    let mut trie = Trie::new();
    let config = Config { weight_ordering: true, ..Config::default() };
    assert_eq!(trie.build_with(&mut keyset, &config), Ok(()));
    assert_eq!(trie.lookup(b"b"), Ok(Some(0)));
    assert_eq!(trie.lookup(b"c"), Ok(Some(1)));
    assert_eq!(trie.lookup(b"a"), Ok(Some(2)));
    let found = trie.predictive_search(b"").unwrap();
    let got: Vec<Vec<u8>> = found.iter().map(|m| m.key.clone()).collect();
    assert_eq!(got, vec![b"b".to_vec(), b"c".to_vec(), b"a".to_vec()]);
}

#[test]
fn siblings_stand_by_their_bytes_without_weight_ordering() {
    let mut keyset = Keyset::default();
    keyset.push("a", Some(1));
    keyset.push("b", Some(10));
    keyset.push("c", Some(5));
    let mut trie = Trie::new();
    let config = Config { weight_ordering: false, ..Config::default() };
    assert_eq!(trie.build_with(&mut keyset, &config), Ok(()));
    assert_eq!(trie.lookup(b"a"), Ok(Some(0)));
    assert_eq!(trie.lookup(b"b"), Ok(Some(1)));
    assert_eq!(trie.lookup(b"c"), Ok(Some(2)));
}

#[test]
fn weight_of_a_subtree_is_that_of_all_its_keys() {
    let mut keyset = Keyset::default();
    keyset.push("xa", Some(3));
    keyset.push("xb", Some(3));
    keyset.push("y", Some(5));
    let mut trie = Trie::new();
    assert_eq!(trie.build(&mut keyset), Ok(()));
    // the subtree under "x" weighs 6 and comes before "y"
    let found = trie.predictive_search(b"").unwrap();
    let got: Vec<Vec<u8>> = found.iter().map(|m| m.key.clone()).collect();
    assert_eq!(got, vec![b"y".to_vec(), b"xa".to_vec(), b"xb".to_vec()]);
    assert_eq!(trie.lookup(b"y"), Ok(Some(0)));
}

#[test]
fn example_in_both_configurations() {
    for ordering in [true, false] {
        let mut keyset = Keyset::default();
        keyset.push("fufi", Some(units(0.8)));
        keyset.push("fi", Some(units(0.5)));
        keyset.push("fu", Some(units(1.0)));
        let mut trie = Trie::new();
        let config = Config { weight_ordering: ordering, ..Config::default() };
        assert_eq!(trie.build_with(&mut keyset, &config), Ok(()));
        assert_eq!(trie.num_keys(), 3);
        assert!(trie.lookup(b"fu").unwrap().is_some());
        assert_eq!(trie.lookup(b"f"), Ok(None));
        let found = trie.predictive_search(b"fu").unwrap();
        let got: Vec<Vec<u8>> = found.iter().map(|m| m.key.clone()).collect();
        assert_eq!(got, vec![b"fu".to_vec(), b"fufi".to_vec()]);
        let all = trie.predictive_search(b"f").unwrap();
        let got: Vec<Vec<u8>> = all.iter().map(|m| m.key.clone()).collect();
        if ordering {
            // "fu" and "fufi" weigh 1.8 together, "fi" weighs 0.5
            assert_eq!(got, vec![b"fu".to_vec(), b"fi".to_vec(), b"fufi".to_vec()]);
        } else {
            assert_eq!(got, vec![b"fi".to_vec(), b"fu".to_vec(), b"fufi".to_vec()]);
        }
    }
}

#[test]
fn empty_input_is_rejected() {
    let mut keyset = Keyset::default();
    let mut trie = Trie::new();
    assert_eq!(trie.build(&mut keyset), Err(Error::Input(InputError::EmptyInput)));
}

#[test]
fn build_on_a_built_dictionary_is_rejected() {
    let (mut trie, _) = built(&["a"]);
    let mut more = keyset_of(&["b"]);
    assert_eq!(trie.build(&mut more), Err(Error::State(StateError::AlreadyBuilt)));
    assert_eq!(trie.lookup(b"a"), Ok(Some(0)));
    assert_eq!(trie.lookup(b"b"), Ok(None));
}

#[test]
fn queries_on_an_unbuilt_dictionary_fail() {
    let trie = Trie::new();
    assert_eq!(trie.lookup(b"a"), Err(StateError::NotBuilt));
    assert_eq!(trie.reverse_lookup(0), Err(Error::State(StateError::NotBuilt)));
    assert_eq!(trie.predictive_search(b"a"), Err(StateError::NotBuilt));
    assert_eq!(trie.common_prefix_search(b"a"), Err(StateError::NotBuilt));
    assert_eq!(trie.num_keys(), 0);
    assert_eq!(trie.num_nodes(), 0);
    assert_eq!(trie.num_tries(), 0);
}

#[test]
fn clear_lets_go_of_the_keys() {
    let (mut trie, _) = built(&["a", "b"]);
    trie.clear();
    assert_eq!(trie.num_keys(), 0);
    assert_eq!(trie.lookup(b"a"), Err(StateError::NotBuilt));
    let mut keyset = keyset_of(&["c"]);
    assert_eq!(trie.build(&mut keyset), Ok(()));
    assert_eq!(trie.lookup(b"c"), Ok(Some(0)));
}

#[test]
fn counts_of_a_small_dictionary() {
    let (trie, _) = built(&["ab", "ac"]);
    assert_eq!(trie.num_keys(), 2);
    assert!(trie.num_tries() >= 1);
    // the root, one node for the shared "a", and one for each key
    assert_eq!(trie.num_nodes(), 4);
    let (trie, _) = built(&["ab", "cd"]);
    assert_eq!(trie.num_nodes(), 3);
}

#[test]
fn single_key_is_one_edge() {
    let (trie, _) = built(&["solitary"]);
    assert_eq!(trie.num_keys(), 1);
    assert_eq!(trie.num_nodes(), 2);
    assert_eq!(trie.lookup(b"solitary"), Ok(Some(0)));
    assert_eq!(trie.lookup(b"solitar"), Ok(None));
    assert_eq!(trie.reverse_lookup(0), Ok(b"solitary".to_vec()));
}

#[test]
fn many_keys_round_trip_through_identifiers() {
    let mut keyset = Keyset::default();
    let mut all: Vec<String> = Vec::new();
    for i in 0..2000u32 {
        let k = format!("{:x}-{}", i.wrapping_mul(2654435761), i % 7);
        keyset.push(&k, Some(i));
        all.push(k);
    }
    let mut trie = Trie::new();
    assert_eq!(trie.build(&mut keyset), Ok(()));
    assert_eq!(trie.num_keys(), 2000);
    let mut seen = vec![false; 2000];
    for k in &all {
        let id = trie.lookup(k.as_bytes()).unwrap().unwrap();
        assert!(!seen[id as usize]);
        seen[id as usize] = true;
        assert_eq!(trie.reverse_lookup(id).unwrap(), k.as_bytes());
    }
    assert!(seen.iter().all(|s| *s));
}

#[test]
fn keys_of_arbitrary_bytes() {
    let mut keyset = Keyset::default();
    keyset.push_bytes(&[0, 0, 1], None);
    keyset.push_bytes(&[0], None);
    keyset.push_bytes(&[255, 254], None);
    keyset.push_bytes(&[0, 0], None);
    let mut trie = Trie::new();
    assert_eq!(trie.build(&mut keyset), Ok(()));
    assert_eq!(trie.num_keys(), 4);
    assert!(trie.lookup(&[0, 0, 1]).unwrap().is_some());
    assert!(trie.lookup(&[0]).unwrap().is_some());
    assert!(trie.lookup(&[0, 0]).unwrap().is_some());
    assert!(trie.lookup(&[255, 254]).unwrap().is_some());
    assert_eq!(trie.lookup(&[255]), Ok(None));
    assert_eq!(trie.lookup(&[]), Ok(None));
}
