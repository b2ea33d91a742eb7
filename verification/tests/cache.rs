use file_server::file_manager::FileManager;

#[test]
fn cache_identity_one_path() {
    // the first successful access records a handle; every later access
    // observes that same handle without opening anything
    let mut fm = FileManager::new();
    assert_eq!(fm.lookup(&String::from("/tmp/a")), None);
    let h1 = fm.insert_opened(String::from("/tmp/a"));
    assert_eq!(fm.lookup(&String::from("/tmp/a")), Some(h1));
    assert_eq!(fm.lookup(&String::from("/tmp/a")), Some(h1));
}

#[test]
fn cache_no_duplicate_open() {
    // the double-checked discipline: open only when the re-check under the
    // exclusive lock still misses — many accesses, one open
    let mut fm = FileManager::new();
    let mut opens: usize = 0;
    for _ in 0..10 {
        if fm.lookup(&String::from("/tmp/hot")).is_none() {
            fm.insert_opened(String::from("/tmp/hot"));
            opens += 1;
        }
    }
    assert_eq!(opens, 1);
}

#[test]
fn cache_failed_open_leaves_no_entry() {
    // a miss whose open fails records nothing: the caller never commits,
    // so later lookups still miss and a later successful open goes through
    let mut fm = FileManager::new();
    assert_eq!(fm.lookup(&String::from("flaky")), None);
    assert_eq!(fm.lookup(&String::from("flaky")), None);
    let h = fm.insert_opened(String::from("flaky"));
    assert_eq!(fm.lookup(&String::from("flaky")), Some(h));
}

#[test]
fn cache_distinct_paths_distinct_handles() {
    let mut fm = FileManager::new();
    let ha = fm.insert_opened(String::from("a"));
    let hb = fm.insert_opened(String::from("b"));
    assert_ne!(ha, hb);
    // an access to one path never disturbs another's entry
    assert_eq!(fm.lookup(&String::from("a")), Some(ha));
    assert_eq!(fm.lookup(&String::from("b")), Some(hb));
}

#[test]
fn cache_lookup_misses_when_empty() {
    let fm = FileManager::new();
    assert_eq!(fm.lookup(&String::from("anything")), None);
}
