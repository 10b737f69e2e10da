//! The key/value store's in-memory side: the cache, the backend choice and
//! the file layout. Reading and writing files is left to the caller.

use vstd::prelude::*;
use vstd::hash_map::StringHashMap;
use vstd::string::*;

verus! {

/// Where data is kept.
#[derive(Clone, Copy, Debug, PartialEq, Eq, Structural)]
pub enum PersistenceBackend {
    FileSystem,
    Redis,
    PostgreSQL,
    S3,
}

/// How a store is set up.
#[derive(Clone, Debug)]
pub struct PersistenceConfig {
    pub backend: PersistenceBackend,
    pub connection_string: String,
    pub cache_enabled: bool,
    pub compression: bool,
}

/// Why a store operation cannot go ahead.
#[derive(Clone, Copy, Debug, PartialEq, Eq, Structural)]
pub enum StoreError {
    /// The configured backend has no implementation.
    Unsupported(PersistenceBackend),
}

/// A store: its configuration and a cache from key to serialized bytes.
pub struct DataStore {
    pub config: PersistenceConfig,
    pub cache: StringHashMap<Vec<u8>>,
}

/// The file that holds `key` under the directory `root`.
pub open spec fn data_path(root: Seq<char>, key: Seq<char>) -> Seq<char> {
    root + "/.data/"@ + key + ".json"@
}

impl StoreError {
    /// A one-line description.
    pub fn message(&self) -> (r: String)
        ensures
            match self {
                StoreError::Unsupported(PersistenceBackend::Redis) => r@ == "Redis backend not yet implemented"@,
                StoreError::Unsupported(PersistenceBackend::PostgreSQL) => r@
                    == "PostgreSQL backend not yet implemented"@,
                StoreError::Unsupported(PersistenceBackend::S3) => r@ == "S3 backend not yet implemented"@,
                StoreError::Unsupported(PersistenceBackend::FileSystem) => r@
                    == "FileSystem backend not yet implemented"@,
            },
    {
        match self {
            StoreError::Unsupported(PersistenceBackend::Redis) => String::from_str(
                "Redis backend not yet implemented",
            ),
            StoreError::Unsupported(PersistenceBackend::PostgreSQL) => String::from_str(
                "PostgreSQL backend not yet implemented",
            ),
            StoreError::Unsupported(PersistenceBackend::S3) => String::from_str("S3 backend not yet implemented"),
            StoreError::Unsupported(PersistenceBackend::FileSystem) => String::from_str(
                "FileSystem backend not yet implemented",
            ),
        }
    }
}

impl DataStore {
    /// A store with an empty cache.
    pub fn new(config: PersistenceConfig) -> (r: Self)
        ensures
            r.config == config,
            r.cache@ == Map::<Seq<char>, Vec<u8>>::empty(),
    {
        DataStore { config, cache: StringHashMap::new() }
    }

    /// Succeeds when the configured backend is implemented: only the file system is.
    pub fn check_backend(&self) -> (r: Result<(), StoreError>)
        ensures
            self.config.backend == PersistenceBackend::FileSystem ==> r is Ok,
            self.config.backend != PersistenceBackend::FileSystem ==> r == Err::<(), StoreError>(
                StoreError::Unsupported(self.config.backend),
            ),
    {
        match self.config.backend {
            PersistenceBackend::FileSystem => Ok(()),
            b => Err(StoreError::Unsupported(b)),
        }
    }

    /// The file that holds `key`: `<connection string>/.data/<key>.json`.
    pub fn file_path(&self, key: &str) -> (r: String)
        ensures
            r@ == data_path(self.config.connection_string@, key@),
    {
        let p = self.config.connection_string.clone();
        let p = p.concat("/.data/");
        let p = p.concat(key);
        p.concat(".json")
    }

    /// Keeps the serialized value of `key` in the cache, when caching is on.
    pub fn cache_store(&mut self, key: &str, bytes: Vec<u8>)
        ensures
            final(self).config == old(self).config,
            old(self).config.cache_enabled ==> final(self).cache@ == old(self).cache@.insert(key@, bytes),
            !old(self).config.cache_enabled ==> final(self).cache@ == old(self).cache@,
    {
        if self.config.cache_enabled {
            self.cache.insert(String::from_str(key), bytes);
        }
    }

    /// The cached serialized value of `key`, when caching is on and it is cached.
    pub fn cache_lookup(&self, key: &str) -> (r: Option<&Vec<u8>>)
        ensures
            self.config.cache_enabled && self.cache@.contains_key(key@) ==> r == Some(&self.cache@[key@]),
            !(self.config.cache_enabled && self.cache@.contains_key(key@)) ==> r is None,
    {
        if self.config.cache_enabled {
            self.cache.get(key)
        } else {
            None
        }
    }

    /// Drops `key` from the cache, when caching is on.
    pub fn cache_evict(&mut self, key: &str)
        ensures
            final(self).config == old(self).config,
            old(self).config.cache_enabled ==> final(self).cache@ == old(self).cache@.remove(key@),
            !old(self).config.cache_enabled ==> final(self).cache@ == old(self).cache@,
    {
        if self.config.cache_enabled {
            self.cache.remove(key);
        }
    }

    /// Empties the cache.
    pub fn clear_cache(&mut self)
        ensures
            final(self).config == old(self).config,
            final(self).cache@ == Map::<Seq<char>, Vec<u8>>::empty(),
    {
        self.cache.clear();
    }
}

} // verus!
