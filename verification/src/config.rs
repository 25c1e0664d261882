//! Configuration for the storage-node client that embeds the engine.

use vstd::prelude::*;

verus! {

/// Connection settings for a storage node.
#[derive(Debug, Clone)]
pub struct StorageNodeClientConfig {
    /// Base URL of the storage node.
    pub base_url: String,
    /// API token, if the node requires one.
    pub api_token: Option<String>,
    /// Request timeout in seconds.
    pub timeout_seconds: u64,
}

impl StorageNodeClientConfig {
    /// A configuration with the given URL, no token, and the given timeout,
    /// floored at one second.
    pub fn new(base_url: String, timeout_seconds: u64) -> (r: Self)
        ensures
            r.base_url@ == base_url@,
            r.api_token is None,
            r.timeout_seconds == if timeout_seconds >= 1 {
                timeout_seconds as int
            } else {
                1int
            },
    {
        StorageNodeClientConfig {
            base_url,
            api_token: None,
            timeout_seconds: if timeout_seconds >= 1 {
                timeout_seconds
            } else {
                1
            },
        }
    }
}

} // verus!
