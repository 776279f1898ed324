use std::collections::HashMap;
use vexlake::catalogue::{commit_writes, latest_path, latest_version_from, manifest_path, pointer_body, version_path, VersionInfo};
use vexlake::Error;

fn commit(store: &mut HashMap<String, Vec<u8>>, version: u64, manifest: &[u8]) {
    for (path, body) in commit_writes(version, manifest.to_vec()) {
        store.insert(path, body);
    }
}

fn latest(store: &HashMap<String, Vec<u8>>) -> Result<u64, Error> {
    latest_version_from(store.get(&latest_path()))
}

#[test]
fn paths() {
    assert_eq!(latest_path(), "_metadata/latest");
    assert_eq!(version_path(1), "_metadata/version_1.json");
    assert_eq!(version_path(4021), "_metadata/version_4021.json");
    assert_eq!(manifest_path(0), None);
    assert_eq!(manifest_path(12), Some("_metadata/version_12.json".to_string()));
    assert_eq!(pointer_body(305), b"305".to_vec());
}

#[test]
fn fresh_store_is_version_zero() {
    let store: HashMap<String, Vec<u8>> = HashMap::new();
    assert_eq!(latest(&store).unwrap(), 0);
    let v0 = VersionInfo::empty();
    assert_eq!(v0.version, 0);
    assert_eq!(v0.timestamp, 0);
    assert!(v0.data_files.is_empty());
    assert!(v0.index_files.is_empty());
    assert_eq!(v0.total_vectors, 0);
}

#[test]
fn commit_writes_manifest_then_pointer() {
    let writes = commit_writes(1, b"{\"version\":1}".to_vec());
    assert_eq!(writes.len(), 2);
    assert_eq!(writes[0].0, "_metadata/version_1.json");
    assert_eq!(writes[0].1, b"{\"version\":1}".to_vec());
    assert_eq!(writes[1].0, "_metadata/latest");
    assert_eq!(writes[1].1, b"1".to_vec());
}

#[test]
fn versions_advance_with_each_commit() {
    let mut store: HashMap<String, Vec<u8>> = HashMap::new();
    let manifests: Vec<Vec<u8>> = (1..=12u64).map(|i| format!("manifest {}", i).into_bytes()).collect();
    for (i, m) in manifests.iter().enumerate() {
        commit(&mut store, i as u64 + 1, m);
        assert_eq!(latest(&store).unwrap(), i as u64 + 1);
    }
    for i in 1..=12u64 {
        let path = manifest_path(i).unwrap();
        assert_eq!(store.get(&path).unwrap(), &manifests[i as usize - 1]);
    }
}

#[test]
fn unreadable_pointer_is_an_error() {
    let garbage = b"not a number".to_vec();
    assert!(matches!(latest_version_from(Some(&garbage)), Err(Error::Ffi(_))));
    let spaced = b" 17\n".to_vec();
    assert_eq!(latest_version_from(Some(&spaced)).unwrap(), 17);
}

#[test]
fn manifest_fields() {
    let mut data_files = HashMap::new();
    data_files.insert("0".to_string(), "data/part-0.parquet".to_string());
    let v1 = VersionInfo {
        version: 1,
        timestamp: 123456789,
        data_files,
        index_files: HashMap::new(),
        total_vectors: 100,
    };
    let mut store: HashMap<String, Vec<u8>> = HashMap::new();
    commit(&mut store, v1.version, b"{}");
    assert_eq!(latest(&store).unwrap(), 1);
    assert_eq!(v1.total_vectors, 100);
    assert_eq!(v1.data_files.get("0").unwrap(), "data/part-0.parquet");
}

#[test]
fn pointer_with_ideographic_space() {
    let body = "\u{3000}42".as_bytes().to_vec();
    assert_eq!(latest_version_from(Some(&body)).unwrap(), 42);
}
