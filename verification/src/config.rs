//! Configuration types for the gateway's collaborators and the
//! authentication hook an acceptor consults on each inbound Logon.

use vstd::prelude::*;

verus! {

/// Where the gateway journals messages.
#[derive(Debug, Clone, PartialEq)]
pub enum StorageBackend {
    /// Journal files under a base directory.
    File {
        /// The directory the journal files live in.
        base_dir: String,
    },
    /// An external archive stream.
    Aeron {
        /// The archive's channel string.
        archive_channel: String,
        /// The archive's stream id.
        stream_id: i32,
    },
}

/// Which flavour of task runtime a component runs on.
#[derive(Debug, Clone, Copy, PartialEq, Eq, Structural)]
pub enum AsyncRuntime {
    /// Every task on the calling thread.
    CurrentThread,
    /// Tasks spread over a pool of threads.
    MultiThread,
}

/// The settings of one client library instance.
#[derive(Debug, Clone, PartialEq)]
pub struct FixClientConfig {
    /// The identifier this client registers under.
    pub library_id: i32,
    /// The runtime flavour the client runs on.
    pub async_runtime: AsyncRuntime,
}

impl FixClientConfig {
    /// A client configuration with the stock runtime flavour.
    pub fn new(library_id: i32) -> (r: FixClientConfig)
        ensures
            r.library_id == library_id,
            r.async_runtime == AsyncRuntime::MultiThread,
    {
        FixClientConfig { library_id, async_runtime: AsyncRuntime::MultiThread }
    }
}

/// The authentication hook an acceptor calls exactly once per inbound
/// Logon, before answering: a pure yes-or-no on the peer's comp ids.
pub trait AuthStrategy {
    /// Whether a session from `sender_comp_id` to `target_comp_id`
    /// may log on.
    fn validate_logon(&self, sender_comp_id: &str, target_comp_id: &str) -> bool;
}

/// The permissive hook: every Logon is accepted.
#[derive(Debug, Clone, Copy, PartialEq, Eq, Structural)]
pub struct AcceptAllAuth;

impl AuthStrategy for AcceptAllAuth {
    fn validate_logon(&self, _sender_comp_id: &str, _target_comp_id: &str) -> (r: bool) {
        true
    }
}

} // verus!
