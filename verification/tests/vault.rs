use cybele_vault::cipher::open;
use cybele_vault::cipher::seal;
use cybele_vault::cipher::TAG_LEN;
use cybele_vault::codec::decode;
use cybele_vault::codec::encode;
use cybele_vault::entry::Entry;
use cybele_vault::format::split;
use cybele_vault::format::HEADER_LEN;
use cybele_vault::format::SALT_LEN;
use cybele_vault::kdf::derive_key;
use cybele_vault::vault::Vault;

const SALT: [u8; 16] = [5u8; 16];
const NONCE: [u8; 12] = [0xa5u8; 12];

fn names(vault: &Vault) -> Vec<String> {
    vault.list()
}

fn plaintext(pairs: &[(&str, &[u8])]) -> Vec<u8> {
    let entries: Vec<Entry> = pairs.iter().map(|(n, s)| Entry::new(n, s).unwrap()).collect();
    encode(&entries)
}

#[test]
fn new_vault_is_empty() {
    let vault = Vault::create(None);
    assert!(vault.list().is_empty());
    assert_eq!(vault.get("email", "pw"), None);
}

#[test]
fn seeded_vault_holds_the_seed() {
    let seed = vec![
        Entry::new("email", b"hunter2").unwrap(),
        Entry::new("bank", b"s3cr3t").unwrap(),
    ];
    let vault = Vault::create(Some(seed));
    assert_eq!(names(&vault), vec!["bank".to_string(), "email".to_string()]);
    assert_eq!(vault.get("email", "pw"), Some(b"hunter2".to_vec()));
    assert_eq!(vault.get("bank", "pw"), Some(b"s3cr3t".to_vec()));
}

#[test]
fn seeded_vault_keeps_the_last_of_equal_names() {
    let seed = vec![
        Entry::new("x", b"first").unwrap(),
        Entry::new("y", b"only").unwrap(),
        Entry::new("x", b"second").unwrap(),
    ];
    let vault = Vault::create(Some(seed));
    assert_eq!(names(&vault), vec!["x".to_string(), "y".to_string()]);
    assert_eq!(vault.get("x", "pw"), Some(b"second".to_vec()));
}

#[test]
fn empty_seed_gives_an_empty_vault() {
    let vault = Vault::create(Some(Vec::new()));
    assert!(vault.list().is_empty());
}

#[test]
fn add_then_get() {
    let mut vault = Vault::create(None);
    assert!(vault.add("email", b"hunter2", "pw"));
    assert_eq!(vault.get("email", "pw"), Some(b"hunter2".to_vec()));
    assert_eq!(vault.get("Email", "pw"), None);
}

#[test]
fn add_and_get_ignore_the_password() {
    let mut vault = Vault::create(None);
    assert!(vault.add("email", b"hunter2", "one"));
    assert_eq!(vault.get("email", "another"), Some(b"hunter2".to_vec()));
    assert_eq!(vault.get("email", ""), Some(b"hunter2".to_vec()));
}

#[test]
fn add_twice_keeps_the_first_secret() {
    let mut vault = Vault::create(None);
    assert!(vault.add("x", b"s1", "pw"));
    assert!(!vault.add("x", b"s2", "pw"));
    assert_eq!(vault.get("x", "pw"), Some(b"s1".to_vec()));
    assert_eq!(names(&vault), vec!["x".to_string()]);
}

#[test]
fn add_rejects_the_delimiter() {
    let mut vault = Vault::create(None);
    assert!(vault.add("keep", b"k", "pw"));
    assert!(!vault.add("a:b", b"secret", "pw"));
    assert_eq!(names(&vault), vec!["keep".to_string()]);
    assert_eq!(vault.get("a:b", "pw"), None);
    assert_eq!(vault.get("a", "pw"), None);
}

#[test]
fn add_rejects_the_empty_name() {
    let mut vault = Vault::create(None);
    assert!(!vault.add("", b"secret", "pw"));
    assert!(vault.list().is_empty());
}

#[test]
fn names_are_case_sensitive() {
    let mut vault = Vault::create(None);
    assert!(vault.add("Bank", b"1", "pw"));
    assert!(vault.add("bank", b"2", "pw"));
    assert_eq!(vault.get("Bank", "pw"), Some(b"1".to_vec()));
    assert_eq!(vault.get("bank", "pw"), Some(b"2".to_vec()));
}

#[test]
fn remove_tells_whether_the_name_was_there() {
    let mut vault = Vault::create(None);
    assert!(!vault.remove("email"));
    assert!(vault.add("email", b"hunter2", "pw"));
    assert!(vault.remove("email"));
    assert!(!vault.remove("email"));
    assert_eq!(vault.get("email", "pw"), None);
    assert!(vault.list().is_empty());
}

#[test]
fn remove_takes_out_one_entry_only() {
    let mut vault = Vault::create(None);
    for name in ["c", "a", "d", "b"] {
        assert!(vault.add(name, name.as_bytes(), "pw"));
    }
    assert!(vault.remove("c"));
    assert_eq!(names(&vault), vec!["a".to_string(), "b".to_string(), "d".to_string()]);
    assert_eq!(vault.get("d", "pw"), Some(b"d".to_vec()));
}

#[test]
fn remove_then_add_replaces_a_secret() {
    let mut vault = Vault::create(None);
    assert!(vault.add("x", b"old", "pw"));
    assert!(vault.remove("x"));
    assert!(vault.add("x", b"new", "pw"));
    assert_eq!(vault.get("x", "pw"), Some(b"new".to_vec()));
}

#[test]
fn list_is_sorted_by_bytes() {
    let mut vault = Vault::create(None);
    for name in ["email", "bank", "Zoo", "é", "a", "ab", "zz"] {
        assert!(vault.add(name, b"s", "pw"));
    }
    let mut expected: Vec<String> =
        ["email", "bank", "Zoo", "é", "a", "ab", "zz"].iter().map(|s| s.to_string()).collect();
    expected.sort();
    assert_eq!(names(&vault), expected);
    assert_eq!(names(&vault)[0], "Zoo");
    assert_eq!(names(&vault)[6], "é");
}

#[test]
fn many_entries_stay_findable() {
    let mut vault = Vault::create(None);
    for i in 0..200u32 {
        let name = format!("name{}", (i * 37) % 200);
        assert!(vault.add(&name, name.as_bytes(), "pw"));
    }
    assert_eq!(vault.list().len(), 200);
    for i in 0..200u32 {
        let name = format!("name{}", i);
        assert_eq!(vault.get(&name, "pw"), Some(name.clone().into_bytes()));
    }
    let listed = vault.list();
    for pair in listed.windows(2) {
        assert!(pair[0] < pair[1]);
    }
}

#[test]
fn restore_reads_sorted_records() {
    let plain = plaintext(&[("bank", b"s3cr3t"), ("email", b"hunter2")]);
    let vault = Vault::restore(&plain).unwrap();
    assert_eq!(names(&vault), vec!["bank".to_string(), "email".to_string()]);
    assert_eq!(vault.get("email", "pw"), Some(b"hunter2".to_vec()));
}

#[test]
fn restore_of_nothing_is_an_empty_vault() {
    let vault = Vault::restore(b"").unwrap();
    assert!(vault.list().is_empty());
}

#[test]
fn restore_rejects_records_out_of_order() {
    let plain = plaintext(&[("email", b"hunter2"), ("bank", b"s3cr3t")]);
    assert!(Vault::restore(&plain).is_none());
}

#[test]
fn restore_rejects_a_name_twice() {
    let plain = plaintext(&[("bank", b"one"), ("bank", b"two")]);
    assert!(Vault::restore(&plain).is_none());
}

#[test]
fn restore_rejects_malformed_plaintext() {
    assert!(Vault::restore(b"bank").is_none());
    assert!(Vault::restore(&[b'a', b':', 9, 0, 0, 0, 0, 0, 0, 0]).is_none());
}

#[test]
fn serialize_lays_out_salt_nonce_and_body() {
    let mut vault = Vault::create(None);
    assert!(vault.add("email", b"hunter2", "pw"));
    let bytes = vault.serialize("pw").unwrap();
    let plain = plaintext(&[("email", b"hunter2")]);
    assert_eq!(bytes.len(), HEADER_LEN + plain.len() + TAG_LEN);
    // What follows the header is the encoded entries under the derived
    // key, with the header as associated data.
    let parts = split(&bytes).unwrap();
    let key = derive_key("pw", parts.salt).to_vec();
    assert_eq!(open(&key, parts.nonce, parts.body, &bytes[..HEADER_LEN]), Ok(plain.clone()));
    let entries = decode(&plain).unwrap();
    assert_eq!(entries[0].name(), "email");
}

#[test]
fn serialize_of_an_empty_vault_round_trips() {
    let vault = Vault::create(None);
    let bytes = vault.serialize("pw").unwrap();
    assert_eq!(bytes.len(), HEADER_LEN + TAG_LEN);
    let loaded = Vault::deserialize(&bytes, "pw").unwrap();
    assert!(loaded.list().is_empty());
}

#[test]
fn round_trip_keeps_every_entry() {
    let mut vault = Vault::create(None);
    assert!(vault.add("email", b"hunter2", "pw"));
    assert!(vault.add("bank", &[0, b':', 255, b'\n'], "pw"));
    assert!(vault.add("пароль", b"", "pw"));
    let bytes = vault.serialize("master").unwrap();
    let loaded = Vault::deserialize(&bytes, "master").unwrap();
    assert_eq!(loaded.list(), vault.list());
    for name in vault.list() {
        assert_eq!(loaded.get(&name, "master"), vault.get(&name, "master"));
    }
}

#[test]
fn round_trip_with_an_empty_password() {
    let mut vault = Vault::create(None);
    assert!(vault.add("a", b"1", ""));
    let bytes = vault.serialize("").unwrap();
    let loaded = Vault::deserialize(&bytes, "").unwrap();
    assert_eq!(loaded.get("a", ""), Some(b"1".to_vec()));
}

#[test]
fn wrong_password_is_rejected() {
    let mut vault = Vault::create(None);
    assert!(vault.add("email", b"hunter2", "right"));
    let bytes = vault.serialize("right").unwrap();
    assert!(Vault::deserialize(&bytes, "wrong").is_none());
    assert!(Vault::deserialize(&bytes, "Right").is_none());
}

#[test]
fn flipped_ciphertext_byte_is_detected() {
    let mut vault = Vault::create(None);
    assert!(vault.add("email", b"hunter2", "pw"));
    let mut bytes = vault.serialize("pw").unwrap();
    bytes[HEADER_LEN] ^= 0x01;
    assert!(Vault::deserialize(&bytes, "pw").is_none());
    assert!(Vault::deserialize(&bytes, "other").is_none());
}

#[test]
fn flipped_tag_byte_is_detected() {
    let mut vault = Vault::create(None);
    assert!(vault.add("email", b"hunter2", "pw"));
    let mut bytes = vault.serialize("pw").unwrap();
    let last = bytes.len() - 1;
    bytes[last] ^= 0x80;
    assert!(Vault::deserialize(&bytes, "pw").is_none());
}

#[test]
fn every_flipped_body_byte_is_detected_under_the_key() {
    let mut vault = Vault::create(None);
    assert!(vault.add("email", b"hunter2", "pw"));
    let bytes = vault.serialize("pw").unwrap();
    let key = derive_key("pw", &bytes[..SALT_LEN]).to_vec();
    let header = &bytes[..HEADER_LEN];
    let nonce = &bytes[SALT_LEN..HEADER_LEN];
    assert!(open(&key, nonce, &bytes[HEADER_LEN..], header).is_ok());
    for i in HEADER_LEN..bytes.len() {
        let mut altered = bytes.clone();
        altered[i] ^= 0x04;
        assert!(open(&key, nonce, &altered[HEADER_LEN..], header).is_err());
    }
}

#[test]
fn flipped_nonce_byte_is_detected() {
    let mut vault = Vault::create(None);
    assert!(vault.add("email", b"hunter2", "pw"));
    let mut bytes = vault.serialize("pw").unwrap();
    bytes[SALT_LEN + 3] ^= 0x01;
    assert!(Vault::deserialize(&bytes, "pw").is_none());
}

#[test]
fn flipped_salt_byte_is_detected() {
    let mut vault = Vault::create(None);
    assert!(vault.add("email", b"hunter2", "pw"));
    let mut bytes = vault.serialize("pw").unwrap();
    bytes[0] ^= 0x01;
    assert!(Vault::deserialize(&bytes, "pw").is_none());
}

#[test]
fn short_input_does_not_load() {
    assert!(Vault::deserialize(b"", "pw").is_none());
    assert!(Vault::deserialize(&[0u8; 27], "pw").is_none());
}

#[test]
fn input_without_a_tag_does_not_load() {
    assert!(Vault::deserialize(&[0u8; 28], "pw").is_none());
    assert!(Vault::deserialize(&[0u8; 43], "pw").is_none());
}

#[test]
fn arbitrary_bytes_do_not_load() {
    let bytes: Vec<u8> = (0u8..=200).collect();
    assert!(Vault::deserialize(&bytes, "pw").is_none());
}

#[test]
fn truncated_file_does_not_load() {
    let mut vault = Vault::create(None);
    assert!(vault.add("email", b"hunter2", "pw"));
    let bytes = vault.serialize("pw").unwrap();
    assert!(Vault::deserialize(&bytes[..bytes.len() - 1], "pw").is_none());
}

#[test]
fn end_to_end() {
    let password = "correct horse battery staple";
    let mut vault = Vault::create(None);
    assert!(vault.add("email", b"hunter2", password));
    assert!(vault.add("bank", b"s3cr3t", password));
    assert_eq!(vault.list(), vec!["bank".to_string(), "email".to_string()]);

    let saved = vault.serialize(password).unwrap();
    let mut loaded = Vault::deserialize(&saved, password).unwrap();
    assert_eq!(loaded.get("email", password), Some(b"hunter2".to_vec()));

    assert!(loaded.remove("bank"));
    let saved_again = loaded.serialize(password).unwrap();
    let reloaded = Vault::deserialize(&saved_again, password).unwrap();
    assert_eq!(reloaded.list(), vec!["email".to_string()]);
    assert_eq!(reloaded.get("email", password), Some(b"hunter2".to_vec()));
    assert_eq!(reloaded.get("bank", password), None);
}

#[test]
fn header_of_one_save_with_body_of_another_does_not_load() {
    let mut vault = Vault::create(None);
    assert!(vault.add("email", b"hunter2", "pw"));
    let first = vault.serialize("pw").unwrap();
    let second = vault.serialize("pw").unwrap();
    let mut spliced = first[..HEADER_LEN].to_vec();
    spliced.extend_from_slice(&second[HEADER_LEN..]);
    assert!(Vault::deserialize(&spliced, "pw").is_none());
}


#[test]
fn header_has_sixteen_and_twelve_bytes() {
    assert_eq!(SALT_LEN, 16);
    assert_eq!(HEADER_LEN, 28);
}

#[test]
fn create_needs_nothing_and_gives_equal_vaults() {
    let first = Vault::create(None);
    let second = Vault::create(None);
    assert_eq!(first.list(), second.list());
    assert_eq!(first.serialize_with("pw", &SALT, &NONCE), second.serialize_with("pw", &SALT, &NONCE));
}

#[test]
fn two_saves_differ() {
    let mut vault = Vault::create(None);
    assert!(vault.add("email", b"hunter2", "pw"));
    let first = vault.serialize("pw").unwrap();
    let second = vault.serialize("pw").unwrap();
    assert_eq!(first.len(), second.len());
    assert_ne!(&first[..SALT_LEN], &second[..SALT_LEN]);
    assert_ne!(&first[SALT_LEN..HEADER_LEN], &second[SALT_LEN..HEADER_LEN]);
    assert_ne!(&first[HEADER_LEN..], &second[HEADER_LEN..]);
    assert_ne!(&first[..SALT_LEN], &[0u8; 16]);
    assert_ne!(&first[SALT_LEN..HEADER_LEN], &[0u8; 12]);
}

#[test]
fn saves_with_different_nonces_differ() {
    let mut vault = Vault::create(None);
    assert!(vault.add("email", b"hunter2", "pw"));
    let first = vault.serialize_with("pw", &SALT, &[1u8; 12]).unwrap();
    let second = vault.serialize_with("pw", &SALT, &[2u8; 12]).unwrap();
    assert_ne!(&first[HEADER_LEN..], &second[HEADER_LEN..]);
}

#[test]
fn serialize_with_gives_exactly_the_sealed_layout() {
    let mut vault = Vault::create(None);
    assert!(vault.add("email", b"hunter2", "pw"));
    assert!(vault.add("bank", b"s3cr3t", "pw"));
    let bytes = vault.serialize_with("pw", &SALT, &NONCE).unwrap();

    let plain = plaintext(&[("bank", b"s3cr3t"), ("email", b"hunter2")]);
    let key = derive_key("pw", &SALT).to_vec();
    let mut header = SALT.to_vec();
    header.extend_from_slice(&NONCE);
    let mut expected = header.clone();
    expected.extend_from_slice(&seal(&key, &NONCE, &plain, &header).unwrap());
    assert_eq!(bytes, expected);
}

#[test]
fn serialize_with_is_deterministic() {
    let mut vault = Vault::create(None);
    assert!(vault.add("email", b"hunter2", "pw"));
    assert_eq!(vault.serialize_with("pw", &SALT, &NONCE), vault.serialize_with("pw", &SALT, &NONCE));
}

#[test]
fn serialize_with_round_trips() {
    let mut vault = Vault::create(None);
    assert!(vault.add("email", b"hunter2", "pw"));
    let bytes = vault.serialize_with("pw", &SALT, &NONCE).unwrap();
    assert_eq!(&bytes[..SALT_LEN], &SALT);
    assert_eq!(&bytes[SALT_LEN..HEADER_LEN], &NONCE);
    let loaded = Vault::deserialize(&bytes, "pw").unwrap();
    assert_eq!(loaded.list(), vec!["email".to_string()]);
    assert_eq!(loaded.get("email", "pw"), Some(b"hunter2".to_vec()));
}

#[test]
fn serialize_with_rejects_a_nonce_of_the_wrong_length() {
    let vault = Vault::create(None);
    assert_eq!(vault.serialize_with("pw", &SALT, &[0u8; 11]), None);
    assert_eq!(vault.serialize_with("pw", &SALT, &[0u8; 13]), None);
    assert_eq!(vault.serialize_with("pw", &SALT, b""), None);
}

#[test]
fn serialize_with_rejects_a_salt_of_the_wrong_length() {
    let vault = Vault::create(None);
    assert_eq!(vault.serialize_with("pw", &SALT[..15], &NONCE), None);
    assert_eq!(vault.serialize_with("pw", &[0u8; 17], &NONCE), None);
    assert_eq!(vault.serialize_with("pw", b"", &NONCE), None);
}

#[test]
fn password_with_a_trailing_nul_is_another_password() {
    let mut vault = Vault::create(None);
    assert!(vault.add("email", b"hunter2", "pw"));
    let bytes = vault.serialize_with("pw", &SALT, &NONCE).unwrap();
    assert!(Vault::deserialize(&bytes, "pw\0").is_none());
    assert!(Vault::deserialize(&bytes, "pw ").is_none());
}
