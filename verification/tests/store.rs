use vic3data::storage::{store_get, store_set};

fn b(s: &str) -> Vec<u8> {
    s.as_bytes().to_vec()
}

#[test]
fn empty_store_has_nothing() {
    let image: Vec<u8> = Vec::new();
    assert_eq!(store_get(&image, &b("game_path")).unwrap(), None);
}

#[test]
fn set_then_get() {
    let image = store_set(&Vec::new(), &b("game_path"), &b("/games/victoria3")).unwrap();
    assert_eq!(store_get(&image, &b("game_path")).unwrap(), Some(b("/games/victoria3")));
    assert_eq!(store_get(&image, &b("other")).unwrap(), None);
}

#[test]
fn overwrite_changes_only_that_key() {
    let image = store_set(&Vec::new(), &b("a"), &b("one")).unwrap();
    let image = store_set(&image, &b("b"), &b("two")).unwrap();
    // a longer value, a shorter value, and an equal-length value in turn
    for next in ["a much longer value", "x", "ONE"] {
        let image = store_set(&image, &b("a"), &b(next)).unwrap();
        assert_eq!(store_get(&image, &b("a")).unwrap(), Some(b(next)));
        assert_eq!(store_get(&image, &b("b")).unwrap(), Some(b("two")));
    }
}

#[test]
fn truncated_store_is_reported() {
    let good = store_set(&Vec::new(), &b("key"), &b("value")).unwrap();
    let cut = good[..good.len() - 2].to_vec();
    let e = store_get(&cut, &b("key")).unwrap_err();
    assert_eq!(e.message(), "settings store is truncated or corrupt");
    assert!(store_set(&cut, &b("key"), &b("v")).is_err());
    assert!(store_get(&vec![1, 2, 3], &b("key")).is_err());
}

#[test]
fn record_layout_is_length_prefixed() {
    let image = store_set(&Vec::new(), &b("k"), &b("vv")).unwrap();
    let mut expected: Vec<u8> = Vec::new();
    expected.extend_from_slice(&1u64.to_le_bytes());
    expected.extend_from_slice(b"k");
    expected.extend_from_slice(&2u64.to_le_bytes());
    expected.extend_from_slice(b"vv");
    assert_eq!(image, expected);
}
