//! The versioned metadata catalogue.
//!
//! Version `N >= 1` is described by a manifest object stored at
//! `_metadata/version_<N>.json`; the object `_metadata/latest` holds the
//! base-10 text of the current version. Version 0 is the empty manifest and
//! is never stored. A commit is two writes, manifest first, pointer second.
//! The storage calls themselves, and the JSON encoding of manifests, happen
//! outside this module: here are the paths, the pointer's text, the
//! decisions, and a model of the store that states what a run of commits
//! leaves behind.
use vstd::prelude::*;
use std::collections::HashMap;
use crate::decimal::{decimal_bytes, digit_chars, digits, lemma_digits_injective, lemma_parse_digits, parse_decimal, parse_u64, push_decimal};
use crate::error::Error;

verus! {

/// A snapshot manifest.
#[derive(Clone, Debug)]
pub struct VersionInfo {
    /// Version number.
    pub version: u64,
    /// Creation time.
    pub timestamp: u64,
    /// Partition name to data-file path.
    pub data_files: HashMap<String, String>,
    /// Index name to index-file path.
    pub index_files: HashMap<String, String>,
    /// Number of vectors in this version.
    pub total_vectors: u64,
}

impl VersionInfo {
    /// The manifest of version 0: nothing stored yet.
    pub fn empty() -> (r: VersionInfo)
        ensures
            r.version == 0,
            r.timestamp == 0,
            r.data_files@ == Map::<String, String>::empty(),
            r.index_files@ == Map::<String, String>::empty(),
            r.total_vectors == 0,
    {
        VersionInfo {
            version: 0,
            timestamp: 0,
            data_files: HashMap::new(),
            index_files: HashMap::new(),
            total_vectors: 0,
        }
    }
}

/// Path of the latest-version pointer.
pub open spec fn latest_key() -> Seq<char> {
    "_metadata/latest"@
}

/// Path of the manifest of `version`.
pub open spec fn version_key(version: u64) -> Seq<char> {
    "_metadata/version_"@ + digit_chars(version as nat) + ".json"@
}

/// Path of the latest-version pointer.
pub fn latest_path() -> (r: String)
    ensures
        r@ == latest_key(),
{
    String::from_str("_metadata/latest")
}

/// Path of the manifest of `version`.
pub fn version_path(version: u64) -> (r: String)
    ensures
        r@ == version_key(version),
{
    let mut r = String::from_str("_metadata/version_");
    push_decimal(&mut r, version);
    r.append(".json");
    r
}

/// Where the manifest of `version` is read from: nowhere for version 0,
/// whose manifest is `VersionInfo::empty()`.
pub fn manifest_path(version: u64) -> (r: Option<String>)
    ensures
        version == 0 ==> r is None,
        version > 0 ==> (r matches Some(p) && p@ == version_key(version)),
{
    if version == 0 {
        None
    } else {
        Some(version_path(version))
    }
}

/// Body of the latest-version pointer for `version`.
pub fn pointer_body(version: u64) -> (r: Vec<u8>)
    ensures
        r@ == digits(version as nat),
{
    decimal_bytes(version)
}

/// The latest version, given the pointer object's body, or `None` when the
/// pointer does not exist (a fresh store, version 0). A body that is not a
/// base-10 number is an error, never version 0.
pub fn latest_version_from(pointer: Option<&Vec<u8>>) -> (r: Result<u64, Error>)
    ensures
        pointer is None ==> r == Ok::<u64, Error>(0),
        pointer matches Some(b) ==> match parse_u64(b@) {
            Some(v) => r == Ok::<u64, Error>(v),
            None => r matches Err(Error::Ffi(_)),
        },
{
    match pointer {
        None => Ok(0),
        Some(body) => match parse_decimal(body.as_slice()) {
            Some(v) => Ok(v),
            None => Err(Error::Ffi(String::from_str("the latest-version pointer is not a base-10 number"))),
        },
    }
}

/// The writes that commit `version` with the encoded manifest, in the order
/// they must happen: the manifest, then the pointer.
pub fn commit_writes(version: u64, manifest: Vec<u8>) -> (r: Vec<(String, Vec<u8>)>)
    ensures
        r.len() == 2,
        r@[0].0@ == version_key(version),
        r@[0].1@ == manifest@,
        r@[1].0@ == latest_key(),
        r@[1].1@ == digits(version as nat),
{
    let mut r: Vec<(String, Vec<u8>)> = Vec::new();
    r.push((version_path(version), manifest));
    r.push((latest_path(), pointer_body(version)));
    r
}

/// Contents of an object store: path to body.
pub type Objects = Map<Seq<char>, Seq<u8>>;

/// The store after `writes`, applied in order.
pub open spec fn apply_writes(store: Objects, writes: Seq<(Seq<char>, Seq<u8>)>) -> Objects
    decreases writes.len(),
{
    if writes.len() == 0 {
        store
    } else {
        apply_writes(store, writes.drop_last()).insert(writes.last().0, writes.last().1)
    }
}

/// The store after committing `version` with the encoded manifest.
pub open spec fn committed(store: Objects, version: u64, manifest: Seq<u8>) -> Objects {
    store.insert(version_key(version), manifest).insert(latest_key(), digits(version as nat))
}

/// The latest version that a store shows, or `None` when its pointer is
/// unreadable.
pub open spec fn latest_in(store: Objects) -> Option<u64> {
    if store.contains_key(latest_key()) {
        parse_u64(store[latest_key()])
    } else {
        Some(0)
    }
}

/// The store after committing versions `1, 2, ..., n` with the manifests
/// `manifests[0], ..., manifests[n - 1]`.
pub open spec fn commit_run(store: Objects, manifests: Seq<Seq<u8>>) -> Objects
    decreases manifests.len(),
{
    if manifests.len() == 0 {
        store
    } else {
        committed(
            commit_run(store, manifests.drop_last()),
            manifests.len() as u64,
            manifests.last(),
        )
    }
}

/// The two writes of `commit_writes`, applied in order, commit the version.
pub proof fn lemma_commit_writes(store: Objects, version: u64, manifest: Seq<u8>)
    ensures
        apply_writes(
            store,
            seq![(version_key(version), manifest), (latest_key(), digits(version as nat))],
        ) == committed(store, version, manifest),
{
    let w = seq![(version_key(version), manifest), (latest_key(), digits(version as nat))];
    let w1 = w.drop_last();
    assert(w1 =~= seq![(version_key(version), manifest)]);
    assert(w1.drop_last() =~= Seq::<(Seq<char>, Seq<u8>)>::empty());
    assert(apply_writes(store, w1.drop_last()) == store);
    assert(apply_writes(store, w1) == store.insert(version_key(version), manifest));
    assert(apply_writes(store, w) == apply_writes(store, w1).insert(latest_key(), digits(version as nat)));
}

/// Manifest paths of distinct versions differ, and none is the pointer's.
pub proof fn lemma_keys_distinct(a: u64, b: u64)
    ensures
        a != b ==> version_key(a) != version_key(b),
        version_key(a) != latest_key(),
{
    let pre = "_metadata/version_"@;
    let post = ".json"@;
    if a != b && version_key(a) == version_key(b) {
        let x = digit_chars(a as nat);
        let y = digit_chars(b as nat);
        assert(version_key(a).len() == pre.len() + x.len() + post.len());
        assert(version_key(b).len() == pre.len() + y.len() + post.len());
        assert(x.len() == y.len());
        assert forall|i: int| 0 <= i < x.len() implies x[i] == y[i] by {
            assert(version_key(a)[pre.len() + i] == x[i]);
            assert(version_key(b)[pre.len() + i] == y[i]);
        }
        assert(x =~= y);
        lemma_digits_injective(a, b);
    }
    reveal_strlit("_metadata/version_");
    reveal_strlit("_metadata/latest");
    assert(version_key(a)[10] == 'v');
    assert(latest_key()[10] == 'l');
}

/// Committing versions `1..=n` in turn leaves the pointer at `n` and the
/// manifest of each version `i` at its path, whatever the store held before.
pub proof fn lemma_commit_run(store: Objects, manifests: Seq<Seq<u8>>)
    requires
        manifests.len() <= u64::MAX,
    ensures
        manifests.len() > 0 ==> latest_in(commit_run(store, manifests)) == Some(manifests.len() as u64),
        forall|i: int|
            1 <= i <= manifests.len() ==> #[trigger] commit_run(store, manifests).contains_key(
                version_key(i as u64),
            ),
        forall|i: int|
            1 <= i <= manifests.len() ==> #[trigger] commit_run(store, manifests)[version_key(i as u64)]
                == manifests[i - 1],
    decreases manifests.len(),
{
    if manifests.len() > 0 {
        let n = manifests.len() as u64;
        let prev = manifests.drop_last();
        lemma_commit_run(store, prev);
        assert(prev.len() == manifests.len() - 1);
        lemma_parse_digits(n);
        lemma_keys_distinct(n, n);
        assert(commit_run(store, manifests) == committed(commit_run(store, prev), n, manifests.last()));
        assert forall|i: int| 1 <= i <= manifests.len() implies #[trigger] commit_run(store, manifests).contains_key(
            version_key(i as u64)) && commit_run(store, manifests)[version_key(i as u64)] == manifests[i - 1] by {
            lemma_keys_distinct(i as u64, n);
            lemma_keys_distinct(i as u64, i as u64);
            let before = commit_run(store, prev);
            let mid = before.insert(version_key(n), manifests.last());
            assert(commit_run(store, manifests) == mid.insert(latest_key(), digits(n as nat)));
            if i < manifests.len() {
                assert(prev[i - 1] == manifests[i - 1]);
                assert(1 <= i <= prev.len());
                assert(commit_run(store, prev).contains_key(version_key(i as u64)));
                assert(commit_run(store, prev)[version_key(i as u64)] == prev[i - 1]);
                assert(version_key(i as u64) != version_key(n));
                assert(mid[version_key(i as u64)] == prev[i - 1]);
            } else {
                assert(i as u64 == n);
                assert(mid[version_key(n)] == manifests[i - 1]);
            }
        }
    }
}

/// A store that has never seen a commit shows version 0, whose manifest is
/// not read from storage.
pub proof fn lemma_fresh_store(store: Objects)
    requires
        !store.contains_key(latest_key()),
    ensures
        latest_in(store) == Some(0u64),
{
}

} // verus!
