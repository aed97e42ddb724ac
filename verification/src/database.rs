//! The registry: a process-wide, lazily populated cache of index
//! handles keyed by name, guarded by a reader/writer lock, with the
//! durable name set kept in the backing store under a reserved key.

use crate::index::Index;
use crate::names::{
    contains_str, decode_names, distinct_list, encode_names, insert_name, spec_decode_names,
};
use crate::error::RegistryError;
use crate::store::{store_get, store_insert, store_open, store_share};
use vstd::prelude::*;
use vstd::rwlock::{RwLock, RwLockPredicate};

verus! {

/// The in-memory cache: one handle per name, each handle bound to the
/// name it is cached under and carrying a well-formed schema.
pub struct IndexCache {
    entries: Vec<(String, Index)>,
}

impl IndexCache {
    /// Whether a handle is cached under the given name.
    pub closed spec fn has(self, n: Seq<char>) -> bool {
        exists|k: int| 0 <= k < self.entries@.len() && self.entries@[k].0@ == n
    }

    /// The content of the one handle cached under a name the cache holds.
    pub closed spec fn lookup(self, n: Seq<char>) -> crate::index::IndexView {
        self.entries@[choose|k: int|
            0 <= k < self.entries@.len() && self.entries@[k].0@ == n].1@
    }

    /// Every handle is cached under one name at most once, bound to its
    /// own key, and carries a well-formed schema.
    pub closed spec fn wf(self) -> bool {
        &&& forall|k: int|
            0 <= k < self.entries@.len() ==> (#[trigger] self.entries@[k]).1@.name
                == self.entries@[k].0@ && self.entries@[k].1.wf()
        &&& forall|k: int, l: int|
            0 <= k < l < self.entries@.len() ==> (#[trigger] self.entries@[k].0@)
                != (#[trigger] self.entries@[l].0@)
    }

    pub fn new() -> (r: IndexCache)
        ensures
            r.wf(),
            forall|n: Seq<char>| !r.has(n),
    {
        IndexCache { entries: Vec::new() }
    }

    /// A clone of the handle cached under `name`, or nothing.
    pub fn get(&self, name: &str) -> (r: Option<Index>)
        requires
            self.wf(),
        ensures
            match r {
                Some(ix) => self.has(name@) && ix@ == self.lookup(name@) && ix@.name == name@
                    && ix.wf(),
                None => !self.has(name@),
            },
    {
        let n = self.entries.len();
        let mut i: usize = 0;
        while i < n
            invariant
                self.wf(),
                n == self.entries@.len(),
                i <= n,
                forall|k: int| 0 <= k < i ==> (#[trigger] self.entries@[k]).0@ != name@,
            decreases n - i,
        {
            if crate::schema::str_eq(self.entries[i].0.as_str(), name) {
                proof {
                    let w = choose|k: int|
                        0 <= k < self.entries@.len() && self.entries@[k].0@ == name@;
                    if w != i {
                        assert(self.entries@[w].0@ != self.entries@[i as int].0@);
                    }
                }
                return Some(self.entries[i].1.clone());
            }
            i += 1;
        }
        None
    }

    /// Caches a handle under a name not yet cached. Every other name's
    /// handle stays as it was: a cached handle is never replaced.
    pub fn insert(&mut self, name: &str, ix: Index)
        requires
            old(self).wf(),
            !old(self).has(name@),
            ix@.name == name@,
            ix.wf(),
        ensures
            final(self).wf(),
            forall|n: Seq<char>| final(self).has(n) <==> (old(self).has(n) || n == name@),
            final(self).lookup(name@) == ix@,
            forall|n: Seq<char>|
                n != name@ && old(self).has(n) ==> final(self).lookup(n) == old(self).lookup(n),
    {
        self.entries.push((name.to_owned(), ix));
        proof {
            let es = self.entries@;
            let old_es = old(self).entries@;
            assert forall|n: Seq<char>| self.has(n) <==> (old(self).has(n) || n == name@) by {
                if old(self).has(n) {
                    let k = choose|k: int| 0 <= k < old_es.len() && old_es[k].0@ == n;
                    assert(es[k].0@ == n);
                }
                if n == name@ {
                    assert(es[es.len() - 1].0@ == n);
                }
                if self.has(n) {
                    let k = choose|k: int| 0 <= k < es.len() && es[k].0@ == n;
                    if k < es.len() - 1 {
                        assert(old_es[k].0@ == n);
                    }
                }
            }
            assert forall|k: int, l: int| 0 <= k < l < es.len() implies (#[trigger] es[k].0@)
                != (#[trigger] es[l].0@) by {
                if l < es.len() - 1 {
                    assert(old_es[k].0@ != old_es[l].0@);
                } else {
                    assert(!old(self).has(name@));
                    assert(es[k].0@ == old_es[k].0@);
                }
            }
            let w = choose|k: int| 0 <= k < es.len() && es[k].0@ == name@;
            assert(es[es.len() - 1].0@ == name@);
            if w != es.len() - 1 {
                assert(es[w].0@ != es[es.len() - 1].0@);
            }
            assert forall|n: Seq<char>|
                n != name@ && old(self).has(n) implies self.lookup(n) == old(self).lookup(n) by {
                let k0 = choose|k: int| 0 <= k < old_es.len() && old_es[k].0@ == n;
                assert(es[k0].0@ == n);
                let k1 = choose|k: int| 0 <= k < es.len() && es[k].0@ == n;
                if k1 != k0 {
                    if k1 < es.len() - 1 {
                        assert(es[k0].0@ != es[k1].0@);
                    } else {
                        assert(es[k1].0@ == name@);
                    }
                }
            }
        }
    }
}

/// Once a handle is cached under a name, any number of later
/// insertions under other names leaves that name's handle exactly as
/// it was, and a lookup still finds it: within the cache, the first
/// writer for a name wins.
pub proof fn lemma_cache_first_insert_wins(c: IndexCache, d: IndexCache, n: Seq<char>, m: Seq<char>)
    requires
        c.wf(),
        c.has(n),
        m != n,
        forall|x: Seq<char>| d.has(x) <==> (c.has(x) || x == m),
        forall|x: Seq<char>| x != m && c.has(x) ==> d.lookup(x) == c.lookup(x),
    ensures
        d.has(n),
        d.lookup(n) == c.lookup(n),
{
}

/// The predicate every value stored in the cache lock satisfies.
pub struct CachePred {}

impl RwLockPredicate<IndexCache> for CachePred {
    open spec fn inv(self, v: IndexCache) -> bool {
        v.wf()
    }
}

/// The index registry: a cache of handles behind a reader/writer lock,
/// and the backing store that owns every persistent record.
pub struct Database {
    cache: RwLock<IndexCache, CachePred>,
    inner: sled::Db,
    path: Ghost<Seq<char>>,
}

/// What the durable name-set record stands for: an absent record is
/// the empty set, not an error; bytes that decode are the set; bytes
/// that decode to nothing are a corrupt record, never a silent default.
pub fn load_indexes(record: Option<Vec<u8>>) -> (r: Result<Vec<String>, RegistryError>)
    ensures
        match record {
            None => r matches Ok(v) && v.deep_view() == Seq::<Seq<char>>::empty(),
            Some(bytes) => match spec_decode_names(bytes@) {
                Some(names) => r matches Ok(v) && v.deep_view() == names,
                None => r matches Err(RegistryError::CorruptIndexList),
            },
        },
        r matches Ok(v) ==> distinct_list(v.deep_view()),
{
    match record {
        None => {
            let empty: Vec<String> = Vec::new();
            proof {
                assert(empty.deep_view() =~= Seq::<Seq<char>>::empty());
            }
            Ok(empty)
        },
        Some(bytes) => match decode_names(&bytes) {
            None => Err(RegistryError::CorruptIndexList),
            Some(v) => Ok(v),
        },
    }
}

impl Database {
    /// The path the registry's backing store was opened at.
    pub closed spec fn spec_path(&self) -> Seq<char> {
        self.path@
    }

    /// Opens or creates the backing store at `path`, loads the durable
    /// name set (an absent record is an empty set, not an error), and
    /// eagerly opens every persisted index into the cache. A name whose
    /// index cannot be constructed fails the whole open: a corrupt
    /// catalog is fatal at startup.
    pub fn open(path: &str) -> (r: Result<Database, RegistryError>)
        ensures
            r matches Ok(db) ==> db.spec_path() == path@,
    {
        let inner = match store_open(path) {
            Ok(db) => db,
            Err(e) => {
                return Err(RegistryError::Store(e));
            },
        };
        let db = Database {
            cache: RwLock::new(IndexCache::new(), Ghost(CachePred {})),
            inner,
            path: Ghost(path@),
        };
        let names = match db.indexes() {
            Ok(v) => v,
            Err(e) => {
                return Err(e);
            },
        };
        let n = names.len();
        let mut i: usize = 0;
        while i < n
            invariant
                n == names@.len(),
                i <= n,
            decreases n - i,
        {
            match db.open_index(names[i].as_str()) {
                Ok(_) => {},
                Err(e) => {
                    return Err(e);
                },
            }
            i += 1;
        }
        Ok(db)
    }

    /// Releases the registry: takes the cache back out of the lock so
    /// every handle it holds drops with the Database — the lock's cell
    /// does not drop what it holds — and the store closes with the last
    /// clone of its handle.
    pub fn close(self) {
        let cache = self.cache.into_inner();
        let _ = cache;
    }

    /// The durable set of known index names, read and decoded fresh
    /// from the store on every call: the source of truth for which
    /// indexes exist, independent of what happens to be cached. An
    /// absent record is an empty set; undecodable bytes are an error.
    pub fn indexes(&self) -> (r: Result<Vec<String>, RegistryError>)
        ensures
            r matches Ok(v) ==> distinct_list(v.deep_view()),
            r matches Err(e) ==> (e is Store || e is CorruptIndexList),
    {
        match store_get(&self.inner, "indexes") {
            Err(e) => Err(RegistryError::Store(e)),
            Ok(record) => load_indexes(record),
        }
    }

    /// Rewrites the durable name set.
    fn set_indexes(&self, names: &Vec<String>) -> (r: Result<(), RegistryError>) {
        let bytes = encode_names(names);
        match store_insert(&self.inner, "indexes", bytes) {
            Err(e) => Err(RegistryError::Store(e)),
            Ok(_) => Ok(()),
        }
    }

    /// A handle to the named index. The fast path returns the cached
    /// handle under the shared lock. On a miss the exclusive lock is
    /// taken and the cache re-checked — another thread may have filled
    /// it — then the durable set decides: a name never persisted is a
    /// plain nothing, not an error; otherwise the handle is constructed
    /// once and cached. Every handle returned is bound to `name` and
    /// carries a well-formed schema.
    pub fn open_index(&self, name: &str) -> (r: Result<Option<Index>, RegistryError>)
        ensures
            r matches Ok(Some(ix)) ==> ix@.name == name@ && ix.wf(),
    {
        let read_handle = self.cache.acquire_read();
        let cached = read_handle.borrow().get(name);
        read_handle.release_read();
        if let Some(ix) = cached {
            return Ok(Some(ix));
        }
        let (mut cache, write_handle) = self.cache.acquire_write();
        let result = match cache.get(name) {
            Some(ix) => Ok(Some(ix)),
            None => match self.indexes() {
                Err(e) => Err(e),
                Ok(known) => {
                    if !contains_str(&known, name) {
                        Ok(None)
                    } else {
                        match Index::new(store_share(&self.inner), name) {
                            Err(e) => Err(e),
                            Ok(ix) => {
                                cache.insert(name, ix.clone());
                                Ok(Some(ix))
                            },
                        }
                    }
                },
            },
        };
        write_handle.release_write(cache);
        result
    }

    /// The handle for `name`, creating the index when it does not yet
    /// exist: under the exclusive lock, an already-cached entry is
    /// returned unchanged — the supplied schema is then ignored, first
    /// writer wins — otherwise the index is constructed with `schema`,
    /// the durable name set is read, extended and rewritten, and the
    /// new handle cached. Every handle returned is bound to `name` and
    /// carries a well-formed schema.
    pub fn create_index(&self, name: &str, schema: crate::schema::Schema) -> (r: Result<
        Index,
        RegistryError,
    >)
        requires
            schema.wf(),
        ensures
            r matches Ok(ix) ==> ix@.name == name@ && ix.wf(),
    {
        let (mut cache, write_handle) = self.cache.acquire_write();
        let result = match cache.get(name) {
            Some(ix) => Ok(ix),
            None => match Index::with_schema(store_share(&self.inner), name, schema) {
                Err(e) => Err(e),
                Ok(ix) => match self.indexes() {
                    Err(e) => Err(e),
                    Ok(mut known) => {
                        insert_name(&mut known, name);
                        match self.set_indexes(&known) {
                            Err(e) => Err(e),
                            Ok(_) => {
                                cache.insert(name, ix.clone());
                                Ok(ix)
                            },
                        }
                    },
                },
            },
        };
        write_handle.release_write(cache);
        result
    }
}

} // verus!
