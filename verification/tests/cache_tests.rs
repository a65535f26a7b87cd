use zhtta::cache::FileCache;

#[test]
fn lookup_finds_what_was_inserted() {
    let mut c = FileCache::new();
    assert!(c.lookup(b"/www/a.html").is_none());
    c.insert(b"/www/a.html".to_vec(), b"AAA".to_vec());
    c.insert(b"/www/b.html".to_vec(), b"BBB".to_vec());
    assert_eq!(c.lookup(b"/www/a.html"), Some(&b"AAA".to_vec()));
    assert_eq!(c.lookup(b"/www/b.html"), Some(&b"BBB".to_vec()));
    assert!(c.lookup(b"/www/c.html").is_none());
}

#[test]
fn insert_replaces_only_its_path() {
    let mut c = FileCache::new();
    c.insert(b"x".to_vec(), b"1".to_vec());
    c.insert(b"y".to_vec(), b"2".to_vec());
    c.insert(b"x".to_vec(), b"3".to_vec());
    assert_eq!(c.lookup(b"x"), Some(&b"3".to_vec()));
    assert_eq!(c.lookup(b"y"), Some(&b"2".to_vec()));
}

#[test]
fn paths_are_compared_whole() {
    let mut c = FileCache::new();
    c.insert(b"abc".to_vec(), b"1".to_vec());
    assert!(c.lookup(b"ab").is_none());
    assert!(c.lookup(b"abcd").is_none());
}
