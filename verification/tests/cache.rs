use jsondepnet::cache::{Cache, CacheData, CacheError, CacheFile, FileEntry, CACHE_VERSION};
use jsondepnet::paths::RelPath;

fn entry(path: &str, mtime: i64, imports: &[&str]) -> FileEntry {
    FileEntry {
        path: RelPath::from_components(&path.split('/').collect::<Vec<_>>()),
        mtime,
        imports: imports
            .iter()
            .map(|s| RelPath::from_components(&s.split('/').collect::<Vec<_>>()))
            .collect(),
    }
}

fn rp(s: &str) -> RelPath {
    RelPath::from_components(&[s])
}

#[test]
fn upsert_replaces_by_path() {
    let mut cache = Cache::new();
    cache.upsert(entry("a.jsonnet", 100, &["b.libsonnet"]));
    cache.upsert(entry("a.jsonnet", 200, &["c.libsonnet"]));
    let stored = cache
        .get(&RelPath::from_components(&["a.jsonnet"]))
        .unwrap();
    assert_eq!(stored.mtime, 200);
    assert_eq!(stored.imports[0].as_str(), "c.libsonnet");
    assert_eq!(cache.len(), 1);
}

#[test]
fn remove_drops_entry() {
    let mut cache = Cache::new();
    cache.upsert(entry("a.jsonnet", 100, &[]));
    let removed = cache.remove(&RelPath::from_components(&["a.jsonnet"]));
    assert!(removed.is_some());
    assert!(cache.is_empty());
}

#[test]
fn build_reverse_diamond_and_isolated() {
    let mut cache = Cache::new();
    cache.upsert(entry("a.jsonnet", 0, &["b.libsonnet", "c.libsonnet"]));
    cache.upsert(entry("b.libsonnet", 0, &["d.libsonnet"]));
    cache.upsert(entry("c.libsonnet", 0, &["d.libsonnet"]));
    cache.upsert(entry("d.libsonnet", 0, &[]));
    cache.upsert(entry("isolated.libsonnet", 0, &[]));

    let rev = cache.build_reverse();
    assert_eq!(
        rev.get(&RelPath::from_components(&["d.libsonnet"]))
            .unwrap()
            .iter()
            .map(|p| p.as_str())
            .collect::<Vec<_>>(),
        vec!["b.libsonnet", "c.libsonnet"]
    );
    assert_eq!(
        rev.get(&RelPath::from_components(&["b.libsonnet"]))
            .unwrap()
            .iter()
            .map(|p| p.as_str())
            .collect::<Vec<_>>(),
        vec!["a.jsonnet"]
    );
    assert!(!rev.contains_key(&RelPath::from_components(&["isolated.libsonnet"])));
}

#[test]
fn build_reverse_handles_cycle() {
    let mut cache = Cache::new();
    cache.upsert(entry("a.libsonnet", 0, &["b.libsonnet"]));
    cache.upsert(entry("b.libsonnet", 0, &["a.libsonnet"]));
    let rev = cache.build_reverse();
    assert_eq!(rev.len(), 2);
}

#[test]
fn build_reverse_dedups_repeated_imports() {
    let mut cache = Cache::new();
    cache.upsert(entry("a.jsonnet", 0, &["x.libsonnet", "x.libsonnet"]));
    cache.upsert(entry("b.jsonnet", 0, &["x.libsonnet"]));
    let rev = cache.build_reverse();
    let importers: Vec<&str> = rev.get(&rp("x.libsonnet")).unwrap().iter().map(|p| p.as_str()).collect();
    assert_eq!(importers, vec!["a.jsonnet", "b.jsonnet"]);
}

#[test]
fn file_roundtrip_keeps_entries() {
    let mut cache = Cache::new();
    cache.upsert(entry("a.jsonnet", 100, &["b.libsonnet", "c.libsonnet"]));
    cache.upsert(entry("b.libsonnet", 200, &[]));
    let file = cache.to_file();
    assert_eq!(file.version, CACHE_VERSION);
    let back = Cache::from_file(file).unwrap();
    assert_eq!(back.len(), 2);
    let a = back.get(&rp("a.jsonnet")).unwrap();
    assert_eq!(a.mtime, 100);
    let imports: Vec<&str> = a.imports.iter().map(|p| p.as_str()).collect();
    assert_eq!(imports, vec!["b.libsonnet", "c.libsonnet"]);
}

#[test]
fn file_lists_entries_sorted_by_path() {
    let mut cache = Cache::new();
    cache.upsert(entry("z.jsonnet", 0, &[]));
    cache.upsert(entry("a.jsonnet", 0, &[]));
    cache.upsert(entry("m/b.jsonnet", 0, &[]));
    let file = cache.to_file();
    let paths: Vec<&str> = file.data.files.iter().map(|e| e.path.as_str()).collect();
    assert_eq!(paths, vec!["a.jsonnet", "m/b.jsonnet", "z.jsonnet"]);
}

#[test]
fn from_file_rejects_unknown_version() {
    let file = CacheFile {
        version: 2,
        data: CacheData { files: Vec::new() },
    };
    match Cache::from_file(file) {
        Err(CacheError::UnsupportedVersion(2, 1)) => {}
        other => panic!("unexpected result: {other:?}"),
    }
}

#[test]
fn from_file_later_entry_wins() {
    let file = CacheFile {
        version: 1,
        data: CacheData {
            files: vec![entry("a.jsonnet", 1, &[]), entry("a.jsonnet", 2, &["b.libsonnet"])],
        },
    };
    let cache = Cache::from_file(file).unwrap();
    assert_eq!(cache.len(), 1);
    assert_eq!(cache.get(&rp("a.jsonnet")).unwrap().mtime, 2);
}

#[test]
fn iter_and_paths_are_in_path_order() {
    let mut cache = Cache::new();
    cache.upsert(entry("b.jsonnet", 0, &[]));
    cache.upsert(entry("a.jsonnet", 0, &[]));
    let paths: Vec<&str> = cache.paths().iter().map(|p| p.as_str()).collect();
    assert_eq!(paths, vec!["a.jsonnet", "b.jsonnet"]);
    let pairs: Vec<(&str, &str)> = cache
        .iter()
        .iter()
        .map(|(p, e)| (p.as_str(), e.path.as_str()))
        .collect();
    assert_eq!(pairs, vec![("a.jsonnet", "a.jsonnet"), ("b.jsonnet", "b.jsonnet")]);
}

#[test]
fn remove_missing_returns_none() {
    let mut cache = Cache::new();
    cache.upsert(entry("a.jsonnet", 0, &[]));
    assert!(cache.remove(&rp("b.jsonnet")).is_none());
    assert_eq!(cache.len(), 1);
    assert!(cache.get(&rp("b.jsonnet")).is_none());
}
