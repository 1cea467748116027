use pressurize::key::{Key, HASH_FACTOR, HASH_SEED};

#[test]
fn hash_exact_for_the_empty_name() {
    let first = (HASH_SEED as u128 * HASH_FACTOR as u128 + 1) % (1u128 << 64);
    let second = (first * HASH_FACTOR as u128 + 1) % (1u128 << 64);
    assert_eq!(Key::new(0, 0, "").hash_code() as u128, second);
}

#[test]
fn hash_exact_with_a_name_and_negative_integers() {
    let mut h = HASH_SEED as u128;
    for fed in [0xffff_ffffu128, 0x8000_0000, b'o' as u128, b'k' as u128] {
        h = (h * HASH_FACTOR as u128 + fed + 1) % (1u128 << 64);
    }
    assert_eq!(Key::new(-1, i32::MIN, "ok").hash_code() as u128, h);
}

#[test]
fn hash_is_the_same_for_the_same_key() {
    assert_eq!(Key::new(1, 2, "ab").hash_code(), Key::new(1, 2, "ab").hash_code());
    let key = Key::new(7, -7, "héllo");
    assert_eq!(key.hash_code(), key.clone().hash_code());
}

#[test]
fn hash_depends_on_every_field() {
    let h = Key::new(1, 2, "ab").hash_code();
    assert_ne!(h, Key::new(2, 2, "ab").hash_code());
    assert_ne!(h, Key::new(1, 3, "ab").hash_code());
    assert_ne!(h, Key::new(1, 2, "ac").hash_code());
    assert_ne!(h, Key::new(1, 2, "ba").hash_code());
    assert_ne!(h, Key::new(1, 2, "ab\0").hash_code());
    assert_ne!(Key::new(-1, 0, "").hash_code(), Key::new(0, -1, "").hash_code());
}

#[test]
fn two_different_keys_can_share_a_hash() {
    let first = Key::new(0, -1795162547, "x");
    let second = Key::new(-1761607681, 0, "x");
    assert_ne!(first, second);
    assert_eq!(first.hash_code(), second.hash_code());
}
