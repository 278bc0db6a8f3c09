use env_overrides::{
    add_override_path, advance, scan_source, Cache, Decoding, Event, Registry, Source, Step,
};

fn registry_of(paths: &[&[u8]], cache: &mut Cache) -> Registry {
    let mut registry = Registry::new();
    for path in paths {
        add_override_path(&mut registry, cache, path);
    }
    registry
}

#[test]
fn a_cached_name_ends_the_lookup_at_once() {
    let mut cache = Cache::new();
    let registry = registry_of(&[b"/a.env"], &mut cache);
    cache.insert(b"FOO".to_vec(), Some(b"bar".to_vec()));
    cache.insert(b"GONE".to_vec(), None);
    assert_eq!(
        advance(&mut cache, &registry, Decoding::Native, b"FOO", Event::Begin),
        Step::Done(Some(b"bar".to_vec()))
    );
    assert_eq!(
        advance(&mut cache, &registry, Decoding::Native, b"GONE", Event::Begin),
        Step::Done(None)
    );
}

#[test]
fn a_name_that_is_not_cached_asks_the_environment() {
    let mut cache = Cache::new();
    let registry = registry_of(&[b"/a.env"], &mut cache);
    assert_eq!(advance(&mut cache, &registry, Decoding::Native, b"FOO", Event::Begin), Step::Variable);
    assert!(cache.is_empty());
}

#[test]
fn an_environment_value_ends_the_lookup() {
    let mut cache = Cache::new();
    let registry = registry_of(&[b"/a.env"], &mut cache);
    let step = advance(&mut cache, &registry, Decoding::Native, b"FOO", Event::Variable(Some(b"v")));
    assert_eq!(step, Step::Done(Some(b"v".to_vec())));
    assert_eq!(cache.get(b"FOO"), Some(Some(b"v".to_vec())));
}

#[test]
fn no_environment_value_turns_to_the_first_file() {
    let mut cache = Cache::new();
    let registry = registry_of(&[b"/a.env", b"/b.env"], &mut cache);
    let step = advance(&mut cache, &registry, Decoding::Native, b"FOO", Event::Variable(None));
    assert_eq!(step, Step::File(0));
    assert!(cache.is_empty());
}

#[test]
fn no_environment_value_and_no_file_ends_the_lookup() {
    let mut cache = Cache::new();
    let registry = Registry::new();
    let step = advance(&mut cache, &registry, Decoding::Native, b"FOO", Event::Variable(None));
    assert_eq!(step, Step::Done(None));
    assert_eq!(cache.get(b"FOO"), Some(None));
}

#[test]
fn a_silent_file_turns_to_the_next() {
    let mut cache = Cache::new();
    let registry = registry_of(&[b"/a.env", b"/b.env"], &mut cache);
    let source = Source::Whole(b"A=1\n".to_vec());
    let step = advance(&mut cache, &registry, Decoding::Native, b"FOO", Event::File(0, &source));
    assert_eq!(step, Step::File(1));
    assert_eq!(cache.get(b"A"), Some(Some(b"1".to_vec())));
    assert_eq!(cache.get(b"FOO"), None);
}

#[test]
fn a_silent_last_file_ends_the_lookup() {
    let mut cache = Cache::new();
    let registry = registry_of(&[b"/a.env", b"/b.env"], &mut cache);
    let source = Source::Missing;
    let step = advance(&mut cache, &registry, Decoding::Native, b"FOO", Event::File(1, &source));
    assert_eq!(step, Step::Done(None));
    assert_eq!(cache.get(b"FOO"), Some(None));
}

#[test]
fn a_file_with_the_name_ends_the_lookup() {
    let mut cache = Cache::new();
    let registry = registry_of(&[b"/a.env", b"/b.env"], &mut cache);
    let source = Source::Whole(b"A=1\nFOO=bar\nB=2\n".to_vec());
    let step = advance(&mut cache, &registry, Decoding::Native, b"FOO", Event::File(0, &source));
    assert_eq!(step, Step::Done(Some(b"bar".to_vec())));
    assert_eq!(cache.get(b"A"), Some(Some(b"1".to_vec())));
    assert_eq!(cache.get(b"B"), None);
}

#[test]
fn an_index_beyond_the_registry_ends_the_lookup() {
    let mut cache = Cache::new();
    let registry = registry_of(&[b"/a.env"], &mut cache);
    let source = Source::Missing;
    let step = advance(&mut cache, &registry, Decoding::Native, b"FOO", Event::File(7, &source));
    assert_eq!(step, Step::Done(None));
    let mut cache = Cache::new();
    let step =
        advance(&mut cache, &registry, Decoding::Native, b"FOO", Event::File(usize::MAX, &source));
    assert_eq!(step, Step::Done(None));
    assert_eq!(cache.get(b"FOO"), Some(None));
}

#[test]
fn a_whole_lookup_step_by_step() {
    let mut cache = Cache::new();
    let registry = registry_of(&[b"/a.env", b"/b.env"], &mut cache);
    let first = Source::Missing;
    let second = Source::Whole(b"FOO=on".to_vec());
    assert_eq!(advance(&mut cache, &registry, Decoding::Utf8, b"FOO", Event::Begin), Step::Variable);
    assert_eq!(
        advance(&mut cache, &registry, Decoding::Utf8, b"FOO", Event::Variable(None)),
        Step::File(0)
    );
    assert_eq!(
        advance(&mut cache, &registry, Decoding::Utf8, b"FOO", Event::File(0, &first)),
        Step::File(1)
    );
    assert_eq!(
        advance(&mut cache, &registry, Decoding::Utf8, b"FOO", Event::File(1, &second)),
        Step::Done(Some(b"on".to_vec()))
    );
    assert_eq!(
        advance(&mut cache, &registry, Decoding::Utf8, b"FOO", Event::Begin),
        Step::Done(Some(b"on".to_vec()))
    );
}

#[test]
fn scanning_a_source_says_whether_the_name_was_found() {
    let mut cache = Cache::new();
    let source = Source::Whole(b"A=1\nFOO=\nB=2\n".to_vec());
    assert!(scan_source(&mut cache, Decoding::Native, b"FOO", &source));
    assert_eq!(cache.get(b"FOO"), Some(None));
    assert_eq!(cache.get(b"B"), None);
    assert!(!scan_source(&mut cache, Decoding::Native, b"C", &source));
    assert_eq!(cache.get(b"B"), Some(Some(b"2".to_vec())));
    assert_eq!(cache.get(b"C"), None);
    assert!(!scan_source(&mut cache, Decoding::Native, b"A", &Source::Missing));
    assert!(!scan_source(&mut cache, Decoding::Native, b"A", &Source::Whole(Vec::new())));
    assert!(!scan_source(&mut cache, Decoding::Native, b"A", &Source::Partial(b"A=1".to_vec())));
    assert!(scan_source(&mut cache, Decoding::Native, b"A", &Source::Partial(b"A=1\n".to_vec())));
}

#[test]
fn scanning_overwrites_what_was_cached_for_other_names() {
    let mut cache = Cache::new();
    cache.insert(b"A".to_vec(), Some(b"old".to_vec()));
    let source = Source::Whole(b"A=new\nA=newer\nFOO=x\n".to_vec());
    assert!(scan_source(&mut cache, Decoding::Native, b"FOO", &source));
    assert_eq!(cache.get(b"A"), Some(Some(b"newer".to_vec())));
}
