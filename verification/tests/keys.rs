use byte_trie::keys::{BitKey, ByteKey, BytesKey, KeyMatch, NibbleKey};

fn compare(a: &[u8], b: &[u8]) -> KeyMatch {
    ByteKey::new(a.to_vec()).compare(&ByteKey::new(b.to_vec()))
}

#[test]
fn compare_exact() {
    assert!(matches!(compare(&[1, 2, 3], &[1, 2, 3]), KeyMatch::Exact));
    assert!(matches!(compare(&[], &[]), KeyMatch::Exact));
}

#[test]
fn compare_full_self() {
    assert!(matches!(compare(&[1, 2], &[1, 2, 3]), KeyMatch::FullSelf(2)));
    assert!(matches!(compare(&[], &[7]), KeyMatch::FullSelf(0)));
}

#[test]
fn compare_full_other() {
    assert!(matches!(compare(&[1, 2, 3], &[1]), KeyMatch::FullOther(1)));
    assert!(matches!(compare(&[7], &[]), KeyMatch::FullOther(0)));
}

#[test]
fn compare_partial() {
    assert!(matches!(compare(&[1, 2, 3], &[1, 2, 4]), KeyMatch::Partial(2)));
    assert!(matches!(compare(&[1, 2], &[1, 3, 4, 5]), KeyMatch::Partial(1)));
}

#[test]
fn compare_no_match() {
    assert!(matches!(compare(&[1, 2, 3], &[2, 2, 3]), KeyMatch::NoMatch));
    assert!(matches!(compare(&[0], &[255]), KeyMatch::NoMatch));
}

#[test]
fn compare_works_on_every_kind_of_key() {
    let a = NibbleKey::from_bytes(&[0x12, 0x34]);
    let b = NibbleKey::from_bytes(&[0x12, 0x35]);
    assert!(matches!(a.compare(&b), KeyMatch::Partial(3)));
    let a = BitKey::from_bytes(&[0xF0]);
    let b = BitKey::from_bytes(&[0xF1]);
    assert!(matches!(a.compare(&b), KeyMatch::Partial(7)));
}

#[test]
fn byte_key_from_bytes_is_the_bytes() {
    let key = ByteKey::from_bytes(&[0x00, 0x7F, 0x80, 0xFF]);
    assert_eq!(key.get(), &[0x00, 0x7F, 0x80, 0xFF]);
    assert_eq!(ByteKey::from_bytes(&[]).get(), &[] as &[u8]);
}

#[test]
fn nibble_key_from_bytes_splits_each_byte() {
    let key = NibbleKey::from_bytes(&[0xAB, 0x01, 0xF0]);
    assert_eq!(key.get(), &[0x0A, 0x0B, 0x00, 0x01, 0x0F, 0x00]);
    assert_eq!(NibbleKey::from_bytes(&[]).get(), &[] as &[u8]);
}

#[test]
fn bit_key_from_bytes_masks_each_bit() {
    let key = BitKey::from_bytes(&[0xA5]);
    assert_eq!(key.get(), &[0x80, 0x00, 0x20, 0x00, 0x00, 0x04, 0x00, 0x01]);
    let key = BitKey::from_bytes(&[0xFF, 0x00]);
    assert_eq!(
        key.get(),
        &[0x80, 0x40, 0x20, 0x10, 0x08, 0x04, 0x02, 0x01, 0, 0, 0, 0, 0, 0, 0, 0]
    );
    assert_eq!(BitKey::from_bytes(&[]).get(), &[] as &[u8]);
}

#[test]
fn new_keeps_the_symbols_as_given() {
    assert_eq!(ByteKey::new(vec![9, 8, 7]).get(), &[9, 8, 7]);
    assert_eq!(NibbleKey::new(vec![9, 8, 7]).get(), &[9, 8, 7]);
    assert_eq!(BitKey::new(vec![9, 8, 7]).get(), &[9, 8, 7]);
}

#[test]
fn get_mut_changes_the_key() {
    let mut key = ByteKey::new(vec![1, 2, 3, 4]);
    let rest = key.get_mut().split_off(1);
    assert_eq!(key.get(), &[1]);
    assert_eq!(rest, vec![2, 3, 4]);
    key.get_mut().push(9);
    assert_eq!(key.get(), &[1, 9]);
}

#[test]
fn byte_key_text_is_two_hex_digits_each() {
    assert_eq!(ByteKey::new(vec![0x01, 0xAB, 0x00, 0xFF]).to_string(), "01ab00ff");
    assert_eq!(ByteKey::new(vec![]).to_string(), "");
}

#[test]
fn nibble_key_text_is_short_hex() {
    assert_eq!(NibbleKey::from_bytes(&[0xAB, 0x09]).to_string(), "ab09");
    assert_eq!(NibbleKey::new(vec![0x0F, 0x10, 0xFF]).to_string(), "f10ff");
}

#[test]
fn bit_key_text_is_binary() {
    assert_eq!(BitKey::from_bytes(&[0x81]).to_string(), "100000000000001");
    assert_eq!(BitKey::new(vec![0, 1, 2, 5, 255]).to_string(), "011010111111111");
}

#[test]
fn key_text_agrees_with_std_formatting() {
    for symbol in 0..=255u8 {
        assert_eq!(ByteKey::new(vec![symbol]).to_string(), format!("{:02x}", symbol));
        assert_eq!(NibbleKey::new(vec![symbol]).to_string(), format!("{:x}", symbol));
        assert_eq!(BitKey::new(vec![symbol]).to_string(), format!("{:b}", symbol));
    }
}
