//! A FIX 4.4 session-engine core: wire codec, per-session state machine,
//! and a journalled message store, with machine-checked contracts.
//!
//! The modules in this crate hold the protocol logic itself.  Network and
//! file I/O live outside the crate and hand plain values in and out.

pub mod buffers;
pub mod config;
pub mod digits;
pub mod error;
pub mod fields;
pub mod machine;
pub mod messages;
pub mod protocol;
pub mod scan;
pub mod session;
pub mod storage;

pub use config::{AcceptAllAuth, AsyncRuntime, AuthStrategy, FixClientConfig, StorageBackend};
pub use error::FixgError;
pub use machine::{Action, Phase, SessionState};
pub use messages::AdminMessage;
pub use protocol::{DecodeError, FixMessage, FixMsgType};
pub use session::{DisconnectReason, OutboundPayload, SessionConfig, SessionConfigBuilder};
pub use storage::{Direction, DurabilityPolicy, Journal, SessionKey, StorageConfig,
    StoredMessageRecord};
