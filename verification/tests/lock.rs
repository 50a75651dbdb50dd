use lib::lock::{LockEntry, LockFile};

fn s(x: &str) -> String {
    x.to_string()
}

fn entry(name: &str, path: &str, hash: &str, deps: &[&str]) -> LockEntry {
    LockEntry { name: s(name), path: s(path), hash: s(hash), deps: deps.iter().map(|d| s(d)).collect() }
}

#[test]
fn new_lock_is_empty() {
    assert!(LockFile::new().entries.is_empty());
    assert_eq!(LockFile::new().render(), "");
}

#[test]
fn load_reads_module_lines() {
    let lock = LockFile::load("module a src/a.unn 1f\nnoise line\nmodule b src/b.unn 2e a  c\nmodule short x\n");
    assert_eq!(lock.entries.len(), 2);
    assert_eq!(lock.entries[0].name, "a");
    assert_eq!(lock.entries[0].path, "src/a.unn");
    assert_eq!(lock.entries[0].hash, "1f");
    assert!(lock.entries[0].deps.is_empty());
    assert_eq!(lock.entries[1].deps, vec![s("a"), s("c")]);
}

#[test]
fn later_line_replaces_earlier() {
    let lock = LockFile::load("module a p 1\nmodule a q 2\n");
    assert_eq!(lock.entries.len(), 1);
    assert_eq!(lock.entries[0].path, "q");
}

#[test]
fn render_writes_one_line_per_entry() {
    let mut lock = LockFile::new();
    lock.insert(entry("a", "src/a.unn", "ff", &[]));
    lock.insert(entry("b", "src/b.unn", "10", &["a", "c"]));
    assert_eq!(lock.render(), "module a src/a.unn ff\nmodule b src/b.unn 10 a c\n");
}

#[test]
fn render_then_load_gives_the_entries_back() {
    let mut lock = LockFile::new();
    lock.insert(entry("main", "src/main.unn", "abc123", &["io", "math"]));
    lock.insert(entry("io", "src/io.unn", "0", &[]));
    let back = LockFile::load(&lock.render());
    assert_eq!(back.entries.len(), 2);
    for (x, y) in lock.entries.iter().zip(back.entries.iter()) {
        assert_eq!((&x.name, &x.path, &x.hash, &x.deps), (&y.name, &y.path, &y.hash, &y.deps));
    }
}

#[test]
fn insert_replaces_by_name() {
    let mut lock = LockFile::new();
    lock.insert(entry("a", "p", "1", &[]));
    lock.insert(entry("a", "p", "2", &[]));
    assert_eq!(lock.entries.len(), 1);
    assert_eq!(lock.get(&s("a")).unwrap().hash, "2");
    assert!(lock.get(&s("b")).is_none());
}

#[test]
fn dirtiness() {
    let mut lock = LockFile::new();
    lock.insert(entry("a", "src/a.unn", "ff", &["b"]));
    let deps = vec![s("b")];
    // unknown module
    assert!(lock.is_dirty(&s("z"), &Some(s("ff")), &deps, &vec![]));
    // same hash, clean imports
    assert!(!lock.is_dirty(&s("a"), &Some(s("ff")), &deps, &vec![]));
    // unreadable file: hash not compared
    assert!(!lock.is_dirty(&s("a"), &None, &deps, &vec![]));
    // changed hash
    assert!(lock.is_dirty(&s("a"), &Some(s("00")), &deps, &vec![]));
    // dirty import
    assert!(lock.is_dirty(&s("a"), &Some(s("ff")), &deps, &vec![s("b")]));
}

#[test]
fn hash_is_lowercase_hex_and_depends_on_content() {
    let h1 = LockFile::hash_file(b"module a\n");
    let h2 = LockFile::hash_file(b"module b\n");
    assert!(!h1.is_empty() && h1.len() <= 16);
    assert!(h1.chars().all(|c| c.is_ascii_hexdigit() && !c.is_ascii_uppercase()));
    assert_ne!(h1, h2);
    assert_eq!(h1, LockFile::hash_file(b"module a\n"));
}
