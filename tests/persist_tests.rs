use apex_core::persist::{DataStore, PersistenceBackend, PersistenceConfig, StoreError};

fn config(backend: PersistenceBackend, cache_enabled: bool) -> PersistenceConfig {
    PersistenceConfig {
        backend,
        connection_string: "./data".to_string(),
        cache_enabled,
        compression: false,
    }
}

#[test]
fn test_persistence_config() {
    let config = PersistenceConfig {
        backend: PersistenceBackend::FileSystem,
        connection_string: "./data".to_string(),
        cache_enabled: true,
        compression: false,
    };
    let store = DataStore::new(config);
    assert!(store.config.cache_enabled);
}

#[test]
fn file_path_layout() {
    let store = DataStore::new(config(PersistenceBackend::FileSystem, true));
    assert_eq!(store.file_path("k1"), "./data/.data/k1.json");
}

#[test]
fn only_the_file_system_backend_is_ready() {
    assert!(DataStore::new(config(PersistenceBackend::FileSystem, true)).check_backend().is_ok());
    let e = DataStore::new(config(PersistenceBackend::Redis, true)).check_backend().unwrap_err();
    assert_eq!(e, StoreError::Unsupported(PersistenceBackend::Redis));
    assert_eq!(e.message(), "Redis backend not yet implemented");
    let e = DataStore::new(config(PersistenceBackend::S3, true)).check_backend().unwrap_err();
    assert_eq!(e.message(), "S3 backend not yet implemented");
    let e = DataStore::new(config(PersistenceBackend::PostgreSQL, true)).check_backend().unwrap_err();
    assert_eq!(e.message(), "PostgreSQL backend not yet implemented");
}

#[test]
fn cache_store_lookup_evict_clear() {
    let mut store = DataStore::new(config(PersistenceBackend::FileSystem, true));
    store.cache_store("a", vec![1, 2, 3]);
    store.cache_store("b", vec![4]);
    assert_eq!(store.cache_lookup("a"), Some(&vec![1, 2, 3]));
    store.cache_evict("a");
    assert_eq!(store.cache_lookup("a"), None);
    assert_eq!(store.cache_lookup("b"), Some(&vec![4]));
    store.clear_cache();
    assert_eq!(store.cache_lookup("b"), None);
}

#[test]
fn disabled_cache_keeps_nothing() {
    let mut store = DataStore::new(config(PersistenceBackend::FileSystem, false));
    store.cache_store("a", vec![1]);
    assert_eq!(store.cache_lookup("a"), None);
}
