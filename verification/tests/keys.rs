use marisa::error::InputError;
use marisa::key::{to_raw, Key};
use marisa::keyset::Keyset;
use marisa::weight::{add_weights, DEFAULT_WEIGHT};

fn units(weight: f32) -> u32 {
    (weight * 1000.0).round() as u32
}

#[test]
fn create_key() {
    let _m = Key::default();
}

#[test]
fn create_new_key() {
    let s = String::from("koko");
    let k = Key::new(&s);

    assert_eq!(k.str(), Ok("koko"));
}

#[test]
fn from_existing() {
    let s = String::from("koko");
    let k = Key::new(&s);

    {
        let existing = Key::from(&k);
        assert_eq!(existing.str(), Ok("koko"));
    }
    assert_eq!(k.str(), Ok("koko"));
}

#[test]
fn set_id() {
    let mut k = Key::default();
    k.set_id(12);

    assert_eq!(k.id(), 12);
    assert_eq!(k.assigned_id(), Some(12));
}

#[test]
fn get_id() {
    let mut k = Key::default();
    k.set_id(134);

    assert_eq!(k.id(), 134);
}

#[test]
fn set_str() {
    let mut k = Key::default();
    let text = "kockopes".to_owned();
    k.set_str(&text);

    let key = k.str();

    assert!(key.is_ok());

    assert_eq!(key.unwrap(), &text);
    assert_eq!(k.length(), text.len() as u32);
}

#[test]
fn get_str() {
    let mut k = Key::default();
    let text = "pes".to_owned();
    k.set_str(&text);

    if let Ok(res) = k.str() {
        assert_eq!(res, text);
    } else {
        panic!("str() failed")
    }
}

#[test]
fn work_with_keyset() {
    let mut keyset = Keyset::default();

    keyset.push("fufi", Some(units(0.8)));
    keyset.push("fi", Some(units(0.5)));
    keyset.push("fu", None);

    assert_eq!(keyset.num_keys(), 3);
    assert_eq!(keyset.at(0).unwrap().str().unwrap(), "fufi");
    assert_eq!(keyset.at(0).unwrap().weight(), units(0.8));
    assert_eq!(keyset.at(1).unwrap().str().unwrap(), "fi");
    assert_eq!(keyset.at(1).unwrap().weight(), units(0.5));
    assert_eq!(keyset.at(2).unwrap().str().unwrap(), "fu");
    assert_eq!(keyset.at(2).unwrap().weight(), units(1.0));
}

#[test]
fn default_key_is_empty_and_unassigned() {
    let k = Key::default();
    assert_eq!(k.length(), 0);
    assert_eq!(k.bytes(), b"");
    assert_eq!(k.id(), 0);
    assert_eq!(k.assigned_id(), None);
    assert_eq!(k.weight(), DEFAULT_WEIGHT);
    assert_eq!(DEFAULT_WEIGHT, 1000);
}

#[test]
fn key_with_bytes_that_are_no_text() {
    let k = Key::from_bytes(&[0xff, 0x00, 0x61], 7);
    assert!(k.str().is_err());
    assert_eq!(k.bytes(), &[0xff, 0x00, 0x61]);
    assert_eq!(k.length(), 3);
    assert_eq!(k.weight(), 7);
}

#[test]
fn key_keeps_embedded_zero_bytes() {
    let k = Key::new("a\0b");
    assert_eq!(k.length(), 3);
    assert_eq!(k.str(), Ok("a\0b"));
}

#[test]
fn set_weight_changes_only_the_weight() {
    let mut k = Key::new("abc");
    k.set_id(5);
    k.set_weight(250);
    assert_eq!(k.weight(), 250);
    assert_eq!(k.id(), 5);
    assert_eq!(k.str(), Ok("abc"));
}

#[test]
fn to_raw_gives_bytes_and_count() {
    let (bytes, size) = to_raw("héllo");
    assert_eq!(bytes, "héllo".as_bytes().to_vec());
    assert_eq!(size, 6);
}

#[test]
fn weights_add_up_and_saturate() {
    assert_eq!(add_weights(800, 500), 1300);
    assert_eq!(add_weights(u32::MAX, 1), u32::MAX);
    assert_eq!(add_weights(u32::MAX - 1, 1), u32::MAX);
}

#[test]
fn keyset_at_past_the_end_is_out_of_range() {
    let mut keyset = Keyset::default();
    assert!(keyset.empty());
    assert_eq!(keyset.at(0).err(), Some(InputError::OutOfRange));
    keyset.push("a", None);
    assert!(!keyset.empty());
    assert!(keyset.at(0).is_ok());
    assert_eq!(keyset.at(1).err(), Some(InputError::OutOfRange));
}

#[test]
fn keyset_reset_empties_it() {
    let mut keyset = Keyset::default();
    keyset.push("a", None);
    keyset.push("b", None);
    keyset.reset();
    assert_eq!(keyset.num_keys(), 0);
    assert!(keyset.empty());
    assert_eq!(keyset.at(0).err(), Some(InputError::OutOfRange));
    keyset.push("c", None);
    assert_eq!(keyset.at(0).unwrap().str().unwrap(), "c");
}

#[test]
fn keyset_clear_empties_it() {
    let mut keyset = Keyset::default();
    keyset.push("a", None);
    keyset.clear();
    assert_eq!(keyset.num_keys(), 0);
    assert_eq!(keyset.at(0).err(), Some(InputError::OutOfRange));
}

#[test]
fn keyset_grows_over_many_blocks() {
    let mut keyset = Keyset::default();
    for i in 0..1000u32 {
        keyset.push(&format!("key{}", i), Some(i));
    }
    assert_eq!(keyset.num_keys(), 1000);
    for i in [0usize, 1, 255, 256, 257, 511, 512, 999] {
        let k = keyset.at(i).unwrap();
        assert_eq!(k.str().unwrap(), format!("key{}", i));
        assert_eq!(k.weight(), i as u32);
    }
    assert_eq!(keyset.at(1000).err(), Some(InputError::OutOfRange));
}
