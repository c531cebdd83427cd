use crate::error::Error;
use crate::key::{base64_url_of, lemma_key_len, Key};
use vstd::prelude::*;

verus! {

broadcast use lemma_key_len;

/// `name` inside the directory `dir`; an empty `dir` is the current directory.
pub open spec fn joined(dir: Seq<char>, name: Seq<char>) -> Seq<char> {
    if dir.len() == 0 {
        name
    } else {
        dir + seq!['/'] + name
    }
}

/// The cache root under the base directory `base`.
pub open spec fn cache_root_of(base: Seq<char>) -> Seq<char> {
    joined(base, ".file_cache"@)
}

fn join(dir: &str, name: &str) -> (r: String)
    ensures
        r@ == joined(dir@, name@),
{
    if dir.is_empty() {
        name.to_owned()
    } else {
        let mut r = dir.to_owned();
        r.append("/");
        proof {
            reveal_strlit("/");
        }
        r.append(name);
        r
    }
}

/// What a listing of the cache root says of one of its entries.
pub enum CacheEntry {
    /// The entry could not be read.
    Unreadable,
    /// The entry's name is not valid Unicode.
    NonUnicode,
    /// An entry with its name, and whether it is a directory.
    Entry { name: String, is_dir: bool },
}

/// Whether the entry is a directory named by the canonical text of some key.
pub open spec fn is_key_dir(e: CacheEntry) -> bool {
    match e {
        CacheEntry::Entry { name, is_dir } => is_dir && exists|b: Seq<u8>|
            b.len() == 32 && base64_url_of(b) == name@,
        _ => false,
    }
}

/// Whether the entry is named by the canonical text of `k`.
pub open spec fn names_key(e: CacheEntry, k: Seq<u8>) -> bool {
    match e {
        CacheEntry::Entry { name, is_dir } => name@ == base64_url_of(k),
        _ => false,
    }
}

/// The keys that a listing of the cache root stands for.
pub open spec fn listed_keys(entries: Seq<CacheEntry>) -> Set<Seq<u8>> {
    Set::new(
        |k: Seq<u8>|
            k.len() == 32 && exists|i: int| 0 <= i < entries.len() && #[trigger] names_key(
                entries[i],
                k,
            ),
    )
}

/// Whether the entry at `i` is the first of the listing that is not a key
/// directory.
pub open spec fn first_bad_entry(entries: Seq<CacheEntry>, i: int) -> bool {
    &&& 0 <= i < entries.len()
    &&& !is_key_dir(entries[i])
    &&& forall|j: int| 0 <= j < i ==> #[trigger] is_key_dir(entries[j])
}

/// Whether `err` is a cache-consistency error with the message `msg`.
pub open spec fn is_cache_error(err: Error, msg: Seq<char>) -> bool {
    match err {
        Error::FileCache(m) => m@ == msg,
        _ => false,
    }
}

/// The message when the cache root is missing or is not a directory.
pub open spec fn not_a_directory_message(path: Seq<char>) -> Seq<char> {
    path + " already exists and is not a directory"@
}

/// The message for an entry of the cache root that is not a key directory.
pub open spec fn corrupt_entry_message(root: Seq<char>, e: CacheEntry) -> Seq<char> {
    match e {
        CacheEntry::Unreadable => "cache corrupted (could not read cache entry)"@,
        CacheEntry::NonUnicode => "cache corrupted (could not parse directory name)"@,
        CacheEntry::Entry { name, is_dir } => if is_dir {
            "cache corrupted (invalid key path "@ + joined(root, name@) + ")"@
        } else {
            "cache corrupted (unexpected file "@ + joined(root, name@) + ")"@
        },
    }
}

/// Adding the entry at `i` to a listing adds the one key that it names.
proof fn lemma_listed_keys_step(entries: Seq<CacheEntry>, i: int, k: Seq<u8>)
    requires
        0 <= i < entries.len(),
        k.len() == 32,
        names_key(entries[i], k),
        forall|b: Seq<u8>| b.len() == 32 && #[trigger] names_key(entries[i], b) ==> b == k,
    ensures
        listed_keys(entries.take(i + 1)) == listed_keys(entries.take(i)).insert(k),
{
    let pre = entries.take(i);
    let post = entries.take(i + 1);
    assert forall|b: Seq<u8>| #[trigger] listed_keys(post).contains(b) implies listed_keys(
        pre,
    ).insert(k).contains(b) by {
        let j = choose|j: int| 0 <= j < post.len() && #[trigger] names_key(post[j], b);
        if j < i {
            assert(pre[j] == post[j]);
        }
    }
    assert forall|b: Seq<u8>| #[trigger] listed_keys(pre).insert(k).contains(b) implies listed_keys(
        post,
    ).contains(b) by {
        if b == k {
            assert(names_key(post[i], b));
        } else {
            let j = choose|j: int| 0 <= j < pre.len() && #[trigger] names_key(pre[j], b);
            assert(post[j] == pre[j]);
        }
    }
    assert(listed_keys(post) =~= listed_keys(pre).insert(k));
}

/// What the caller reports back while it cleans a key directory.
pub enum CleanEvent {
    /// The cleaning starts.
    Begin,
    /// The outcome of removing the key's directory.
    Removed(Result<(), std::io::Error>),
    /// The outcome of creating the key's directory again.
    Created(Result<(), std::io::Error>),
}

/// What the cache asks the caller to do next while it cleans a key directory.
pub enum CleanAction {
    /// Remove this directory with all its contents, then report `Removed`.
    RemoveDir(String),
    /// Create this directory, then report `Created`.
    CreateDir(String),
    /// The cleaning is over, with this outcome.
    Finish(Result<(), Error>),
}

/// The keys that the entries hold.
spec fn keys_of(entries: Seq<(Key, String)>) -> Set<Seq<u8>> {
    Set::new(|k: Seq<u8>| exists|j: int| 0 <= j < entries.len() && entries[j].0@ == k)
}

/// Taking out the entry at `i` of entries with distinct keys takes out its
/// key and keeps the others distinct.
proof fn lemma_remove_entry(entries: Seq<(Key, String)>, i: int)
    requires
        0 <= i < entries.len(),
        forall|a: int, b: int| 0 <= a < b < entries.len() ==> entries[a].0@ != entries[b].0@,
    ensures
        forall|a: int, b: int|
            0 <= a < b < entries.remove(i).len() ==> entries.remove(i)[a].0@ != entries.remove(i)[b].0@,
        keys_of(entries.remove(i)) == keys_of(entries).remove(entries[i].0@),
{
    let rest = entries.remove(i);
    assert forall|a: int, b: int| 0 <= a < b < rest.len() implies rest[a].0@ != rest[b].0@ by {
        let a0 = if a < i { a } else { a + 1 };
        let b0 = if b < i { b } else { b + 1 };
        assert(rest[a] == entries[a0] && rest[b] == entries[b0]);
    }
    assert forall|k: Seq<u8>| #[trigger] keys_of(rest).contains(k) implies keys_of(entries).remove(
        entries[i].0@,
    ).contains(k) by {
        let j = choose|j: int| 0 <= j < rest.len() && rest[j].0@ == k;
        let j0 = if j < i { j } else { j + 1 };
        assert(rest[j] == entries[j0]);
    }
    assert forall|k: Seq<u8>| #[trigger] keys_of(entries).remove(entries[i].0@).contains(k) implies keys_of(
        rest,
    ).contains(k) by {
        let j0 = choose|j: int| 0 <= j < entries.len() && entries[j].0@ == k;
        let j = if j0 < i { j0 } else { j0 - 1 };
        assert(rest[j] == entries[j0]);
    }
    assert(keys_of(rest) =~= keys_of(entries).remove(entries[i].0@));
}

/// Whether every entry is a directory named by the canonical text of a key of
/// `keys`, and every key of `keys` has such an entry.
pub open spec fn lists_key_dirs(entries: Seq<CacheEntry>, keys: Set<Seq<u8>>) -> bool {
    &&& forall|i: int|
        0 <= i < entries.len() ==> (#[trigger] entries[i] matches CacheEntry::Entry { name, is_dir }
            && is_dir && exists|k: Seq<u8>| keys.contains(k) && name@ == base64_url_of(k))
    &&& forall|k: Seq<u8>|
        keys.contains(k) ==> exists|i: int| 0 <= i < entries.len() && #[trigger] names_key(entries[i], k)
}

/// The cache: a root directory and the keys that have a directory under it.
/// The directory of a key is named by the key's canonical text.
pub struct FileCache {
    root: String,
    keys: Vec<(Key, String)>,
}

impl FileCache {
    /// The path of the cache root.
    pub closed spec fn root_path(&self) -> Seq<char> {
        self.root@
    }

    /// The keys that the cache holds.
    pub closed spec fn key_set(&self) -> Set<Seq<u8>> {
        keys_of(self.keys@)
    }

    /// Each key is held once, under the directory named by its canonical text.
    pub closed spec fn wf(&self) -> bool {
        &&& forall|i: int, j: int|
            0 <= i < j < self.keys@.len() ==> self.keys@[i].0@ != self.keys@[j].0@
        &&& forall|i: int|
            0 <= i < self.keys@.len() ==> #[trigger] self.keys@[i].1@ == base64_url_of(
                self.keys@[i].0@,
            )
        &&& forall|i: int, b: Seq<u8>|
            #![trigger base64_url_of(b), self.keys@[i]]
            0 <= i < self.keys@.len() && b.len() == 32 && base64_url_of(b) == self.keys@[i].1@
                ==> b == self.keys@[i].0@
    }

    /// Every key of the cache is 32 bytes long.
    pub proof fn lemma_keys_len(&self, k: Seq<u8>)
        requires
            self.key_set().contains(k),
        ensures
            k.len() == 32,
    {
        let j = choose|j: int| 0 <= j < self.keys@.len() && self.keys@[j].0@ == k;
        lemma_key_len(self.keys@[j].0);
    }

    fn find(&self, key: &Key) -> (r: Option<usize>)
        ensures
            r matches Some(i) ==> i < self.keys@.len() && self.keys@[i as int].0@ == key@,
            r is None ==> !self.key_set().contains(key@),
    {
        let mut i: usize = 0;
        while i < self.keys.len()
            invariant
                0 <= i <= self.keys@.len(),
                forall|j: int| 0 <= j < i ==> self.keys@[j].0@ != key@,
            decreases self.keys@.len() - i,
        {
            if self.keys[i].0.same_as(key) {
                return Some(i);
            }
            i = i + 1;
        }
        None
    }

    fn add_key(&mut self, key: &Key)
        requires
            old(self).wf(),
        ensures
            final(self).wf(),
            final(self).root_path() == old(self).root_path(),
            final(self).key_set() == old(self).key_set().insert(key@),
    {
        let name = key.as_base64();
        match self.find(key) {
            Some(_) => {
                assert(self.key_set() =~= old(self).key_set().insert(key@));
            },
            None => {
                self.keys.push((*key, name));
                let ghost n = self.keys@.len() - 1;
                assert(self.keys@[n].0@ == key@);
                assert forall|k: Seq<u8>| #[trigger]
                    old(self).key_set().contains(k) implies self.key_set().contains(k) by {
                    let j = choose|j: int|
                        0 <= j < old(self).keys@.len() && old(self).keys@[j].0@ == k;
                    assert(self.keys@[j] == old(self).keys@[j]);
                }
                assert(self.key_set().contains(key@));
                assert forall|k: Seq<u8>| #[trigger]
                    self.key_set().contains(k) implies old(self).key_set().contains(k) || k
                    == key@ by {
                    let j = choose|j: int| 0 <= j < self.keys@.len() && self.keys@[j].0@ == k;
                    if j < n {
                        assert(old(self).keys@[j] == self.keys@[j]);
                    }
                }
                assert(self.key_set() =~= old(self).key_set().insert(key@));
            },
        }
    }

    /// The cache root under the base directory `base`.
    pub fn cache_root(base: &str) -> (r: String)
        ensures
            r@ == cache_root_of(base@),
    {
        join(base, ".file_cache")
    }

    /// Reopens the cache under `base` from what the filesystem says of its
    /// root: whether it is a directory, and the listing of its entries.
    /// Every entry must be a directory named by a key's canonical text; the
    /// first one that is not ends the reopening with an error.
    pub fn new(base: &str, root_is_dir: bool, listing: Result<Vec<CacheEntry>, std::io::Error>) -> (r:
        Result<FileCache, Error>)
        ensures
            !root_is_dir ==> (r matches Err(err) && is_cache_error(
                err,
                not_a_directory_message(cache_root_of(base@)),
            )),
            root_is_dir ==> (listing matches Err(e) ==> r == Err::<FileCache, Error>(Error::Io(e))),
            root_is_dir ==> (listing matches Ok(es) ==> (r is Ok <==> forall|i: int|
                0 <= i < es@.len() ==> #[trigger] is_key_dir(es@[i]))),
            root_is_dir ==> (listing matches Ok(es) ==> (r matches Ok(c) ==> c.wf()
                && c.root_path() == cache_root_of(base@) && c.key_set() == listed_keys(es@))),
            root_is_dir ==> (listing matches Ok(es) ==> (r matches Err(err) ==> exists|i: int|
                first_bad_entry(es@, i) && is_cache_error(
                    err,
                    corrupt_entry_message(cache_root_of(base@), es@[i]),
                ))),
    {
        let root = Self::cache_root(base);
        if !root_is_dir {
            let mut m = root.clone();
            m.append(" already exists and is not a directory");
            proof {
                reveal_strlit(" already exists and is not a directory");
            }
            return Err(Error::FileCache(m));
        }
        let ghost given = listing;
        let entries = match listing {
            Ok(es) => es,
            Err(e) => {
                return Err(Error::Io(e));
            },
        };
        assert(given matches Ok(es) && es == entries);
        let mut cache = FileCache { root, keys: Vec::new() };
        assert(cache.key_set() =~= Set::empty());
        let mut i: usize = 0;
        while i < entries.len()
            invariant
                0 <= i <= entries@.len(),
                root_is_dir,
                given == listing,
                given matches Ok(es) && es == entries,
                cache.wf(),
                cache.root_path() == cache_root_of(base@),
                forall|j: int| 0 <= j < i ==> #[trigger] is_key_dir(entries@[j]),
                cache.key_set() == listed_keys(entries@.take(i as int)),
            decreases entries@.len() - i,
        {
            let ghost before = cache.key_set();
            match &entries[i] {
                CacheEntry::Unreadable => {
                    let m = "cache corrupted (could not read cache entry)".to_owned();
                    proof {
                        reveal_strlit("cache corrupted (could not read cache entry)");
                        assert(first_bad_entry(entries@, i as int));
                    }
                    return Err(Error::FileCache(m));
                },
                CacheEntry::NonUnicode => {
                    let m = "cache corrupted (could not parse directory name)".to_owned();
                    proof {
                        reveal_strlit("cache corrupted (could not parse directory name)");
                        assert(first_bad_entry(entries@, i as int));
                    }
                    return Err(Error::FileCache(m));
                },
                CacheEntry::Entry { name, is_dir } => {
                    let path = join(cache.root.as_str(), name.as_str());
                    if !*is_dir {
                        let mut m = "cache corrupted (unexpected file ".to_owned();
                        m.append(path.as_str());
                        m.append(")");
                        proof {
                            reveal_strlit("cache corrupted (unexpected file ");
                            reveal_strlit(")");
                            assert(first_bad_entry(entries@, i as int));
                        }
                        return Err(Error::FileCache(m));
                    }
                    match Key::from_base64(name.as_str()) {
                        None => {
                            let mut m = "cache corrupted (invalid key path ".to_owned();
                            m.append(path.as_str());
                            m.append(")");
                            proof {
                                reveal_strlit("cache corrupted (invalid key path ");
                                reveal_strlit(")");
                                assert(first_bad_entry(entries@, i as int));
                            }
                            return Err(Error::FileCache(m));
                        },
                        Some(k) => {
                            cache.add_key(&k);
                            proof {
                                lemma_listed_keys_step(entries@, i as int, k@);
                            }
                        },
                    }
                },
            }
            i = i + 1;
        }
        assert(entries@.take(entries@.len() as int) =~= entries@);
        Ok(cache)
    }

    /// The empty cache under `base`, once the caller has removed whatever
    /// stood at its root and created the root again as an empty directory;
    /// `prepared` is the outcome of that work.
    pub fn reset(base: &str, prepared: Result<(), std::io::Error>) -> (r: Result<FileCache, Error>)
        ensures
            prepared is Ok ==> (r matches Ok(c) && c.wf() && c.root_path() == cache_root_of(base@)
                && c.key_set() == Set::<Seq<u8>>::empty()),
            prepared matches Err(e) ==> r == Err::<FileCache, Error>(Error::Io(e)),
    {
        match prepared {
            Ok(()) => {
                let cache = FileCache { root: Self::cache_root(base), keys: Vec::new() };
                assert(cache.key_set() =~= Set::empty());
                Ok(cache)
            },
            Err(e) => Err(Error::Io(e)),
        }
    }

    /// Records the directory of `key` once the caller has created it at
    /// `key_dir_path(key)`; `created` is the outcome of that. On failure the
    /// cache is left as it was.
    pub fn create_key_dir(&mut self, key: &Key, created: Result<(), std::io::Error>) -> (r: Result<
        (),
        Error,
    >)
        requires
            old(self).wf(),
        ensures
            final(self).wf(),
            final(self).root_path() == old(self).root_path(),
            created is Ok ==> r is Ok && final(self).key_set() == old(self).key_set().insert(key@),
            created matches Err(e) ==> r == Err::<(), Error>(Error::Io(e)) && final(self).key_set()
                == old(self).key_set(),
    {
        match created {
            Ok(()) => {
                self.add_key(key);
                Ok(())
            },
            Err(e) => Err(Error::Io(e)),
        }
    }

    /// Forgets `key` once the caller has removed its directory, as
    /// `get_key_dir(key)` gives it; `removed` is the outcome of that. A key
    /// that the cache does not hold is left alone, whatever `removed` says.
    pub fn remove_key_dir(&mut self, key: &Key, removed: Result<(), std::io::Error>) -> (r: Result<
        (),
        Error,
    >)
        requires
            old(self).wf(),
        ensures
            final(self).wf(),
            final(self).root_path() == old(self).root_path(),
            !old(self).key_set().contains(key@) ==> r is Ok && final(self).key_set() == old(self).key_set(),
            old(self).key_set().contains(key@) && removed is Ok ==> r is Ok && final(self).key_set() == old(self).key_set().remove(key@),
            old(self).key_set().contains(key@) ==> (removed matches Err(e) ==> r == Err::<
                (),
                Error,
            >(Error::Io(e)) && final(self).key_set() == old(self).key_set()),
    {
        match self.find(key) {
            None => Ok(()),
            Some(i) => match removed {
                Ok(()) => {
                    self.keys.remove(i);
                    proof {
                        lemma_remove_entry(old(self).keys@, i as int);
                    }
                    Ok(())
                },
                Err(e) => Err(Error::Io(e)),
            },
        }
    }

    /// One step of emptying the directory of `key`: the cache removes the
    /// directory and creates it again, through the caller, and keeps the key.
    /// The caller starts with `Begin` and reports the outcome of each action
    /// it is given until it is given `Finish`. A key that the cache does not
    /// hold is left alone.
    pub fn clean_key_dir(&mut self, key: &Key, event: CleanEvent) -> (r: CleanAction)
        requires
            old(self).wf(),
        ensures
            final(self).wf(),
            final(self).root_path() == old(self).root_path(),
            !old(self).key_set().contains(key@) && !(event is Created) ==> (r matches CleanAction::Finish(res)
                && res is Ok && final(self).key_set() == old(self).key_set()),
            old(self).key_set().contains(key@) && (event is Begin) ==> (r matches CleanAction::RemoveDir(p)
                && p@ == joined(old(self).root_path(), base64_url_of(key@)) && final(self).key_set()
                == old(self).key_set()),
            old(self).key_set().contains(key@) && (event matches CleanEvent::Removed(Ok(()))) ==> (
            r matches CleanAction::CreateDir(p) && p@ == joined(
                old(self).root_path(),
                base64_url_of(key@),
            ) && final(self).key_set() == old(self).key_set().remove(key@)),
            old(self).key_set().contains(key@) ==> (event matches CleanEvent::Removed(Err(e)) ==> (
            r == CleanAction::Finish(Err(Error::Io(e))) && final(self).key_set() == old(self).key_set())),
            event matches CleanEvent::Created(Ok(())) ==> (r matches CleanAction::Finish(res)
                && res is Ok && final(self).key_set() == old(self).key_set().insert(key@)),
            event matches CleanEvent::Created(Err(e)) ==> (r == CleanAction::Finish(
                Err(Error::Io(e)),
            ) && final(self).key_set() == old(self).key_set()),
    {
        match event {
            CleanEvent::Begin => match self.get_key_dir(key) {
                Some(p) => CleanAction::RemoveDir(p),
                None => CleanAction::Finish(Ok(())),
            },
            CleanEvent::Removed(removed) => {
                if !self.contains(key) {
                    return CleanAction::Finish(Ok(()));
                }
                match self.remove_key_dir(key, removed) {
                    Ok(()) => CleanAction::CreateDir(self.key_dir_path(key)),
                    Err(e) => CleanAction::Finish(Err(e)),
                }
            },
            CleanEvent::Created(created) => CleanAction::Finish(self.create_key_dir(key, created)),
        }
    }

    /// Reopening a cache from a listing of its own key directories finds every
    /// entry well formed, so that it succeeds, and finds exactly the keys of
    /// the cache.
    pub proof fn lemma_reopen_finds_keys(&self, entries: Seq<CacheEntry>)
        requires
            self.wf(),
            lists_key_dirs(entries, self.key_set()),
        ensures
            forall|i: int| 0 <= i < entries.len() ==> #[trigger] is_key_dir(entries[i]),
            listed_keys(entries) == self.key_set(),
    {
        self.lemma_reopen_entries_ok(entries);
        self.lemma_reopen_keeps_keys(entries);
        self.lemma_reopen_names(entries);
        assert(listed_keys(entries) =~= self.key_set());
    }

    proof fn lemma_reopen_entries_ok(&self, entries: Seq<CacheEntry>)
        requires
            lists_key_dirs(entries, self.key_set()),
        ensures
            forall|i: int| 0 <= i < entries.len() ==> #[trigger] is_key_dir(entries[i]),
    {
        assert forall|i: int| 0 <= i < entries.len() implies #[trigger] is_key_dir(entries[i]) by {
            let name = entries[i]->Entry_name;
            let k = choose|k: Seq<u8>| self.key_set().contains(k) && name@ == base64_url_of(k);
            self.lemma_keys_len(k);
        }
    }

    proof fn lemma_reopen_keeps_keys(&self, entries: Seq<CacheEntry>)
        requires
            lists_key_dirs(entries, self.key_set()),
        ensures
            self.key_set().subset_of(listed_keys(entries)),
    {
        assert forall|k: Seq<u8>| self.key_set().contains(k) implies listed_keys(entries).contains(
            k,
        ) by {
            self.lemma_keys_len(k);
        }
    }

    proof fn lemma_reopen_names(&self, entries: Seq<CacheEntry>)
        requires
            self.wf(),
            lists_key_dirs(entries, self.key_set()),
        ensures
            listed_keys(entries).subset_of(self.key_set()),
    {
        assert forall|k: Seq<u8>| #[trigger]
            listed_keys(entries).contains(k) implies self.key_set().contains(k) by {
            let i = choose|i: int| 0 <= i < entries.len() && #[trigger] names_key(entries[i], k);
            let name = entries[i]->Entry_name;
            let k2 = choose|k2: Seq<u8>| self.key_set().contains(k2) && name@ == base64_url_of(k2);
            let j = choose|j: int| 0 <= j < self.keys@.len() && self.keys@[j].0@ == k2;
            assert(self.keys@[j].1@ == base64_url_of(k2));
            assert(base64_url_of(k) == self.keys@[j].1@);
        }
    }

    /// Whether the cache holds `key`. The filesystem is not consulted.
    pub fn contains(&self, key: &Key) -> (r: bool)
        ensures
            r == self.key_set().contains(key@),
    {
        self.find(key).is_some()
    }

    /// The directory of `key` under the cache root, if the cache holds the key.
    /// Whether that directory still exists on disk is not checked.
    pub fn get_key_dir(&self, key: &Key) -> (r: Option<String>)
        requires
            self.wf(),
        ensures
            r is Some <==> self.key_set().contains(key@),
            r matches Some(p) ==> p@ == joined(self.root_path(), base64_url_of(key@)),
    {
        match self.find(key) {
            Some(i) => Some(join(self.root.as_str(), self.keys[i].1.as_str())),
            None => None,
        }
    }

    /// The directory that holds, or would hold, the files of `key`.
    pub fn key_dir_path(&self, key: &Key) -> (r: String)
        ensures
            r@ == joined(self.root_path(), base64_url_of(key@)),
    {
        let name = key.as_base64();
        join(self.root.as_str(), name.as_str())
    }
}

} // verus!
