use file_cache::error::Error;
use file_cache::file_cache::{CacheEntry, CleanAction, CleanEvent, FileCache};
use file_cache::key::Key;

const FOO: &str = "LCa0a2j_xo_5m0U8HTBBNBNCLXBkg7-g-YpeiGJm564";

fn io_error() -> std::io::Error {
    std::io::Error::new(std::io::ErrorKind::PermissionDenied, "denied")
}

fn fresh(base: &str) -> FileCache {
    FileCache::reset(base, Ok(())).unwrap()
}

fn dir(name: &str) -> CacheEntry {
    CacheEntry::Entry {
        name: name.to_string(),
        is_dir: true,
    }
}

fn cache_error(r: Result<FileCache, Error>) -> String {
    match r {
        Err(Error::FileCache(m)) => m,
        Err(Error::Io(e)) => panic!("unexpected i/o error {:?}", e),
        Ok(_) => panic!("unexpected success"),
    }
}

#[test]
fn cache_root_paths() {
    assert_eq!(FileCache::cache_root("base"), "base/.file_cache");
    assert_eq!(FileCache::cache_root("/tmp/x"), "/tmp/x/.file_cache");
    assert_eq!(FileCache::cache_root(""), ".file_cache");
}

#[test]
fn reset_gives_empty_cache() {
    let cache = fresh("base");
    assert!(!cache.contains(&Key::new("foo".as_bytes())));
    assert!(!cache.contains(&Key::new("".as_bytes())));
    assert_eq!(cache.get_key_dir(&Key::new("foo".as_bytes())), None);
    assert_eq!(
        cache.key_dir_path(&Key::new("foo".as_bytes())),
        format!("base/.file_cache/{}", FOO)
    );
}

#[test]
fn reset_passes_on_io_error() {
    assert!(matches!(FileCache::reset("base", Err(io_error())), Err(Error::Io(_))));
}

#[test]
fn create_then_lookup() {
    let mut cache = fresh("base");
    let k = Key::new("foo".as_bytes());
    assert!(cache.create_key_dir(&k, Ok(())).is_ok());
    assert!(cache.contains(&k));
    assert_eq!(cache.get_key_dir(&k), Some(format!("base/.file_cache/{}", FOO)));
    assert!(!cache.contains(&Key::new("bar".as_bytes())));
    // creating again keeps the one entry
    assert!(cache.create_key_dir(&k, Ok(())).is_ok());
    assert!(cache.contains(&k));
}

#[test]
fn failed_create_leaves_no_entry() {
    let mut cache = fresh("base");
    let k = Key::new("foo".as_bytes());
    assert!(matches!(cache.create_key_dir(&k, Err(io_error())), Err(Error::Io(_))));
    assert!(!cache.contains(&k));
    assert_eq!(cache.get_key_dir(&k), None);
}

#[test]
fn remove_absent_is_no_op() {
    let mut cache = fresh("base");
    let k = Key::new("foo".as_bytes());
    let other = Key::new("bar".as_bytes());
    cache.create_key_dir(&other, Ok(())).unwrap();
    assert!(cache.remove_key_dir(&k, Ok(())).is_ok());
    assert!(cache.remove_key_dir(&k, Err(io_error())).is_ok());
    assert!(!cache.contains(&k));
    assert!(cache.contains(&other));
}

#[test]
fn remove_present_key() {
    let mut cache = fresh("base");
    let k = Key::new("foo".as_bytes());
    let other = Key::new("bar".as_bytes());
    cache.create_key_dir(&k, Ok(())).unwrap();
    cache.create_key_dir(&other, Ok(())).unwrap();
    assert!(matches!(cache.remove_key_dir(&k, Err(io_error())), Err(Error::Io(_))));
    assert!(cache.contains(&k));
    assert!(cache.remove_key_dir(&k, Ok(())).is_ok());
    assert!(!cache.contains(&k));
    assert!(cache.contains(&other));
}

#[test]
fn clean_present_key() {
    let mut cache = fresh("base");
    let k = Key::new("foo".as_bytes());
    cache.create_key_dir(&k, Ok(())).unwrap();
    let before = cache.get_key_dir(&k).unwrap();
    let removed = match cache.clean_key_dir(&k, CleanEvent::Begin) {
        CleanAction::RemoveDir(p) => p,
        _ => panic!("expected a removal"),
    };
    assert_eq!(removed, before);
    let created = match cache.clean_key_dir(&k, CleanEvent::Removed(Ok(()))) {
        CleanAction::CreateDir(p) => p,
        _ => panic!("expected a creation"),
    };
    assert_eq!(created, before);
    assert!(matches!(
        cache.clean_key_dir(&k, CleanEvent::Created(Ok(()))),
        CleanAction::Finish(Ok(()))
    ));
    assert!(cache.contains(&k));
    assert_eq!(cache.get_key_dir(&k), Some(before));
}

#[test]
fn clean_absent_key_is_no_op() {
    let mut cache = fresh("base");
    let k = Key::new("foo".as_bytes());
    assert!(matches!(
        cache.clean_key_dir(&k, CleanEvent::Begin),
        CleanAction::Finish(Ok(()))
    ));
    assert!(!cache.contains(&k));
}

#[test]
fn clean_stops_on_failed_removal() {
    let mut cache = fresh("base");
    let k = Key::new("foo".as_bytes());
    cache.create_key_dir(&k, Ok(())).unwrap();
    assert!(matches!(
        cache.clean_key_dir(&k, CleanEvent::Removed(Err(io_error()))),
        CleanAction::Finish(Err(Error::Io(_)))
    ));
    assert!(cache.contains(&k));
}

#[test]
fn clean_failed_creation_drops_key() {
    let mut cache = fresh("base");
    let k = Key::new("foo".as_bytes());
    cache.create_key_dir(&k, Ok(())).unwrap();
    assert!(matches!(
        cache.clean_key_dir(&k, CleanEvent::Removed(Ok(()))),
        CleanAction::CreateDir(_)
    ));
    assert!(matches!(
        cache.clean_key_dir(&k, CleanEvent::Created(Err(io_error()))),
        CleanAction::Finish(Err(Error::Io(_)))
    ));
    assert!(!cache.contains(&k));
}

#[test]
fn reopen_finds_same_keys() {
    let keys: Vec<Key> = ["a", "b", "c"].iter().map(|s| Key::new(s.as_bytes())).collect();
    let mut cache = fresh("base");
    for k in &keys {
        cache.create_key_dir(k, Ok(())).unwrap();
    }
    let listing: Vec<CacheEntry> = keys.iter().map(|k| dir(&k.as_base64())).collect();
    let reopened = FileCache::new("base", true, Ok(listing)).unwrap();
    for k in &keys {
        assert!(reopened.contains(k));
        assert_eq!(reopened.get_key_dir(k), cache.get_key_dir(k));
    }
    assert!(!reopened.contains(&Key::new("d".as_bytes())));
}

#[test]
fn reopen_empty_root() {
    let cache = FileCache::new("base", true, Ok(vec![])).unwrap();
    assert!(!cache.contains(&Key::new("foo".as_bytes())));
}

#[test]
fn reopen_missing_root() {
    assert_eq!(
        cache_error(FileCache::new("base", false, Ok(vec![]))),
        "base/.file_cache already exists and is not a directory"
    );
}

#[test]
fn reopen_rejects_plain_file() {
    let listing = vec![
        dir(FOO),
        CacheEntry::Entry {
            name: "notes.txt".to_string(),
            is_dir: false,
        },
    ];
    assert_eq!(
        cache_error(FileCache::new("base", true, Ok(listing))),
        "cache corrupted (unexpected file base/.file_cache/notes.txt)"
    );
}

#[test]
fn reopen_rejects_invalid_name() {
    let listing = vec![dir("not-a-key"), dir(FOO)];
    assert_eq!(
        cache_error(FileCache::new("base", true, Ok(listing))),
        "cache corrupted (invalid key path base/.file_cache/not-a-key)"
    );
}

#[test]
fn reopen_rejects_unreadable_entries() {
    assert_eq!(
        cache_error(FileCache::new("base", true, Ok(vec![CacheEntry::Unreadable]))),
        "cache corrupted (could not read cache entry)"
    );
    assert_eq!(
        cache_error(FileCache::new("base", true, Ok(vec![CacheEntry::NonUnicode]))),
        "cache corrupted (could not parse directory name)"
    );
}

#[test]
fn reopen_passes_on_listing_error() {
    assert!(matches!(
        FileCache::new("base", true, Err(io_error())),
        Err(Error::Io(_))
    ));
}

#[test]
fn io_error_converts() {
    assert!(matches!(Error::from(io_error()), Error::Io(_)));
}
