use env_overrides::{insert_key_value, Cache};

#[test]
fn new_cache_is_empty() {
    let cache = Cache::new();
    assert!(cache.is_empty());
    assert_eq!(cache.get(b"FOO"), None);
    assert_eq!(cache.get(b""), None);
}

#[test]
fn a_cached_absence_is_not_a_missing_key() {
    let mut cache = Cache::new();
    cache.insert(b"FOO".to_vec(), None);
    assert!(!cache.is_empty());
    assert_eq!(cache.get(b"FOO"), Some(None));
    assert_eq!(cache.get(b"BAR"), None);
}

#[test]
fn insert_replaces_what_was_cached() {
    let mut cache = Cache::new();
    cache.insert(b"FOO".to_vec(), Some(b"one".to_vec()));
    cache.insert(b"BAR".to_vec(), Some(b"two".to_vec()));
    cache.insert(b"FOO".to_vec(), Some(b"three".to_vec()));
    assert_eq!(cache.get(b"FOO"), Some(Some(b"three".to_vec())));
    assert_eq!(cache.get(b"BAR"), Some(Some(b"two".to_vec())));
    cache.insert(b"FOO".to_vec(), None);
    assert_eq!(cache.get(b"FOO"), Some(None));
    assert_eq!(cache.get(b"BAR"), Some(Some(b"two".to_vec())));
}

#[test]
fn keys_are_told_apart_byte_by_byte() {
    let mut cache = Cache::new();
    cache.insert(b"FOO".to_vec(), Some(b"upper".to_vec()));
    cache.insert(b"foo".to_vec(), Some(b"lower".to_vec()));
    cache.insert(b"FO".to_vec(), Some(b"short".to_vec()));
    cache.insert(vec![0xff, 0x00], Some(vec![0xfe]));
    assert_eq!(cache.get(b"FOO"), Some(Some(b"upper".to_vec())));
    assert_eq!(cache.get(b"foo"), Some(Some(b"lower".to_vec())));
    assert_eq!(cache.get(b"FO"), Some(Some(b"short".to_vec())));
    assert_eq!(cache.get(&[0xff, 0x00]), Some(Some(vec![0xfe])));
    assert_eq!(cache.get(b"F"), None);
}

#[test]
fn clear_forgets_everything() {
    let mut cache = Cache::new();
    cache.insert(b"FOO".to_vec(), Some(b"one".to_vec()));
    cache.insert(b"BAR".to_vec(), None);
    cache.clear();
    assert!(cache.is_empty());
    assert_eq!(cache.get(b"FOO"), None);
    assert_eq!(cache.get(b"BAR"), None);
}

#[test]
fn an_empty_value_is_stored_as_absence() {
    let mut cache = Cache::new();
    insert_key_value(&mut cache, b"FOO", b"");
    insert_key_value(&mut cache, b"BAR", b"x");
    insert_key_value(&mut cache, b"", b"y");
    assert_eq!(cache.get(b"FOO"), Some(None));
    assert_eq!(cache.get(b"BAR"), Some(Some(b"x".to_vec())));
    assert_eq!(cache.get(b""), Some(Some(b"y".to_vec())));
    insert_key_value(&mut cache, b"BAR", b"");
    assert_eq!(cache.get(b"BAR"), Some(None));
}

#[test]
fn many_names_are_kept_apart() {
    let mut cache = Cache::new();
    for i in 0..2000u32 {
        let key = format!("NAME_{}", i).into_bytes();
        let value = format!("value {}", i).into_bytes();
        cache.insert(key, Some(value));
    }
    for i in 0..2000u32 {
        let key = format!("NAME_{}", i).into_bytes();
        let value = format!("value {}", i).into_bytes();
        assert_eq!(cache.get(&key), Some(Some(value)));
    }
    for i in (0..2000u32).step_by(2) {
        cache.insert(format!("NAME_{}", i).into_bytes(), None);
    }
    for i in 0..2000u32 {
        let key = format!("NAME_{}", i).into_bytes();
        if i % 2 == 0 {
            assert_eq!(cache.get(&key), Some(None));
        } else {
            assert_eq!(cache.get(&key), Some(Some(format!("value {}", i).into_bytes())));
        }
    }
    assert_eq!(cache.get(b"NAME_2000"), None);
    assert_eq!(cache.get(b"NAME_"), None);
}

#[test]
fn names_of_one_byte_and_of_none() {
    let mut cache = Cache::new();
    for byte in 0..=255u8 {
        cache.insert(vec![byte], Some(vec![byte, byte]));
    }
    cache.insert(Vec::new(), Some(b"empty".to_vec()));
    for byte in 0..=255u8 {
        assert_eq!(cache.get(&[byte]), Some(Some(vec![byte, byte])));
    }
    assert_eq!(cache.get(b""), Some(Some(b"empty".to_vec())));
    assert_eq!(cache.get(&[0, 0]), None);
}
