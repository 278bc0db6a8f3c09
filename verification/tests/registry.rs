use env_overrides::{add_override_path, Cache, Registry};

#[test]
fn new_registry_is_empty() {
    let registry = Registry::new();
    assert_eq!(registry.len(), 0);
    assert_eq!(registry.path(0), None);
    assert!(!registry.contains(b"/etc/app.env"));
}

#[test]
fn paths_keep_the_order_of_insertion() {
    let mut registry = Registry::new();
    let mut cache = Cache::new();
    add_override_path(&mut registry, &mut cache, b"/b.env");
    add_override_path(&mut registry, &mut cache, b"/a.env");
    add_override_path(&mut registry, &mut cache, b"/c.env");
    assert_eq!(registry.len(), 3);
    assert_eq!(registry.path(0), Some(&b"/b.env"[..]));
    assert_eq!(registry.path(1), Some(&b"/a.env"[..]));
    assert_eq!(registry.path(2), Some(&b"/c.env"[..]));
    assert_eq!(registry.path(3), None);
    assert!(registry.contains(b"/a.env"));
    assert!(!registry.contains(b"/d.env"));
}

#[test]
fn adding_a_path_twice_changes_nothing() {
    let mut registry = Registry::new();
    let mut cache = Cache::new();
    add_override_path(&mut registry, &mut cache, b"/a.env");
    cache.insert(b"FOO".to_vec(), Some(b"bar".to_vec()));
    cache.insert(b"GONE".to_vec(), None);
    add_override_path(&mut registry, &mut cache, b"/a.env");
    assert_eq!(registry.len(), 1);
    assert_eq!(registry.path(0), Some(&b"/a.env"[..]));
    assert_eq!(cache.get(b"FOO"), Some(Some(b"bar".to_vec())));
    assert_eq!(cache.get(b"GONE"), Some(None));
}

#[test]
fn adding_a_new_path_empties_the_cache() {
    let mut registry = Registry::new();
    let mut cache = Cache::new();
    cache.insert(b"FOO".to_vec(), Some(b"bar".to_vec()));
    cache.insert(b"OTHER".to_vec(), None);
    add_override_path(&mut registry, &mut cache, b"/a.env");
    assert!(cache.is_empty());
    assert_eq!(cache.get(b"FOO"), None);
    assert_eq!(cache.get(b"OTHER"), None);
    cache.insert(b"FOO".to_vec(), Some(b"bar".to_vec()));
    add_override_path(&mut registry, &mut cache, b"/b.env");
    assert!(cache.is_empty());
    assert_eq!(registry.len(), 2);
}

#[test]
fn paths_are_told_apart_byte_by_byte() {
    let mut registry = Registry::new();
    let mut cache = Cache::new();
    add_override_path(&mut registry, &mut cache, b"/a.env");
    add_override_path(&mut registry, &mut cache, b"/a.env/");
    add_override_path(&mut registry, &mut cache, b"/A.env");
    add_override_path(&mut registry, &mut cache, b"");
    add_override_path(&mut registry, &mut cache, b"");
    assert_eq!(registry.len(), 4);
    assert_eq!(registry.path(3), Some(&b""[..]));
}
