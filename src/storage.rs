//! Where the object store lives.
use vstd::prelude::*;

verus! {

/// Connection settings of an S3-compatible object store.
#[derive(Clone, Debug)]
pub struct StorageConfig {
    /// Endpoint URL.
    pub endpoint: String,
    /// Bucket name.
    pub bucket: String,
    /// Access key id, when the store needs one.
    pub access_key_id: Option<String>,
    /// Secret access key, when the store needs one.
    pub secret_access_key: Option<String>,
    /// Region.
    pub region: String,
}

impl Default for StorageConfig {
    /// A local store on port 8333, bucket `vexlake`, region `us-east-1`,
    /// without credentials.
    fn default() -> (c: StorageConfig)
        ensures
            c.endpoint@ == "http://localhost:8333"@,
            c.bucket@ == "vexlake"@,
            c.access_key_id is None,
            c.secret_access_key is None,
            c.region@ == "us-east-1"@,
    {
        StorageConfig {
            endpoint: String::from_str("http://localhost:8333"),
            bucket: String::from_str("vexlake"),
            access_key_id: None,
            secret_access_key: None,
            region: String::from_str("us-east-1"),
        }
    }
}

} // verus!
