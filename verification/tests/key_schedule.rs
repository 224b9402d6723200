use rc5::Key;

#[test]
fn test_expand_key() {
    let key = Key::new(vec![0; 16], 10);
    let s: Vec<u8> = key.expand_key();
    assert_eq!(s.len(), 2 * key.rounds + 1);
}

#[test]
fn new_keeps_secret_and_rounds() {
    let key = Key::new(vec![3, 1, 4, 1, 5], 9);
    assert_eq!(key.key, vec![3, 1, 4, 1, 5]);
    assert_eq!(key.rounds, 9);
}

#[test]
fn schedule_has_two_subkeys_per_round_and_one() {
    for rounds in 0..20usize {
        for len in 0..20usize {
            let key = Key::new(vec![0xA5; len], rounds);
            let narrow: Vec<u8> = key.expand_key();
            let wide: Vec<u32> = key.expand_key();
            assert_eq!(narrow.len(), 2 * rounds + 1);
            assert_eq!(wide.len(), 2 * rounds + 1);
        }
    }
}

#[test]
fn schedule_of_zero_key_in_bytes() {
    let key = Key::new(vec![0; 16], 10);
    let s: Vec<u8> = key.expand_key();
    assert_eq!(
        s,
        vec![
            231, 86, 244, 146, 48, 206, 108, 10, 168, 70, 228, 130, 32, 190, 92, 250, 152, 54,
            212, 114, 16
        ]
    );
}

#[test]
fn schedule_of_zero_key_in_wide_words() {
    let key = Key::new(vec![0; 16], 12);
    let s: Vec<u32> = key.expand_key();
    assert_eq!(
        s,
        vec![
            0xd8c66392, 0x5618cb1c, 0xf45044d5, 0x9287be8e, 0x30bf3847, 0xcef6b200, 0x6d2e2bb9,
            0x0b65a572, 0xa99d1f2b, 0x47d498e4, 0xe60c129d, 0x84438c56, 0x227b060f, 0xc0b27fc8,
            0x5ee9f981, 0xfd21733a, 0x9b58ecf3, 0x399066ac, 0xd7c7e065, 0x75ff5a1e, 0x1436d3d7,
            0xb26e4d90, 0x50a5c749, 0xeedd4102, 0x8d14babb
        ]
    );
}

#[test]
fn schedule_of_short_keys() {
    let s: Vec<u8> = Key::new(vec![1, 2, 3], 2).expand_key();
    assert_eq!(s, vec![59, 86, 244, 146, 48]);
    let s: Vec<u32> = Key::new(vec![9, 9, 9, 9, 9], 2).expand_key();
    assert_eq!(s, vec![1617470158, 1444465436, 4098901205, 2458369678, 817838151]);
    let s: Vec<u32> = Key::new(vec![1, 2, 3, 4, 5, 6, 7], 4).expand_key();
    assert_eq!(
        s,
        vec![
            0x5408560c, 0x5618cb1c, 0xf45044d5, 0x9287be8e, 0x30bf3847, 0xcef6b200, 0x6d2e2bb9,
            0x0b65a572, 0xa99d1f2b
        ]
    );
    let s: Vec<u8> = Key::new(vec![0xff, 0xff, 0xff], 1).expand_key();
    assert_eq!(s, vec![24, 86, 244]);
}

#[test]
fn schedule_of_empty_key() {
    let s: Vec<u8> = Key::new(Vec::new(), 3).expand_key();
    assert_eq!(s, vec![184, 86, 244, 146, 48, 206, 108]);
    let s: Vec<u32> = Key::new(Vec::new(), 2).expand_key();
    assert_eq!(s, vec![0x6068a2ce, 0x5618cb1c, 0xf45044d5, 0x9287be8e, 0x30bf3847]);
}

#[test]
fn schedule_of_no_rounds_is_one_subkey() {
    let s: Vec<u8> = Key::new(Vec::new(), 0).expand_key();
    assert_eq!(s, vec![113]);
    let s: Vec<u8> = Key::new(vec![1, 2, 3, 4], 0).expand_key();
    assert_eq!(s.len(), 1);
}

#[test]
fn schedule_is_the_same_each_time() {
    let key = Key::new(vec![7, 0, 200, 13, 99], 6);
    let first: Vec<u32> = key.expand_key();
    let second: Vec<u32> = key.expand_key();
    assert_eq!(first, second);
    let again: Vec<u32> = Key::new(vec![7, 0, 200, 13, 99], 6).expand_key();
    assert_eq!(first, again);
    let first: Vec<u8> = key.expand_key();
    let second: Vec<u8> = key.clone().expand_key();
    assert_eq!(first, second);
}
