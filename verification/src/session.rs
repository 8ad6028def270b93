//! Per-session surface types: disconnect reasons, outbound payloads,
//! and the session configuration with its builder.

use vstd::prelude::*;
use vstd::string::StringExecFns;
use crate::error::FixgError;
use crate::messages::AdminMessage;

verus! {

/// Why a session ended.
#[derive(Debug, Clone, Copy, PartialEq, Eq, Structural)]
pub enum DisconnectReason {
    /// The remote peer closed the connection.
    PeerClosed,
    /// A FIX protocol rule was violated.
    ProtocolError,
    /// No inbound traffic for three heartbeat intervals.
    Timeout,
    /// The application or the peer asked to close.
    ApplicationRequested,
    /// Anything else, such as a socket error.
    Unknown,
}

/// What a caller may hand a session to send: raw bytes to go out
/// verbatim (the caller owns sequencing), or a typed admin message
/// that is stamped and encoded at transmission.
#[derive(Debug, Clone)]
pub enum OutboundPayload {
    /// Bytes already framed by the caller.
    Raw(bytes::Bytes),
    /// A typed admin message.
    Admin(AdminMessage),
}

/// The gateway-local name of a live session.
#[derive(Debug, Clone, Copy, PartialEq, Eq, Structural)]
pub struct SessionHandle {
    /// The gateway-assigned session id.
    pub session_id: u64,
}

/// The settings a session is dialled with.
#[derive(Debug, Clone, PartialEq)]
pub struct SessionConfig {
    /// Host name or address of the counterparty.
    pub host: String,
    /// TCP port of the counterparty.
    pub port: u16,
    /// Our comp id, tag 49 on what we send.
    pub sender_comp_id: String,
    /// The counterparty's comp id, tag 56 on what we send.
    pub target_comp_id: String,
    /// The heartbeat interval, seconds.
    pub heartbeat_interval_secs: u32,
}

impl SessionConfig {
    /// Starts a builder with nothing set.
    pub fn builder() -> (r: SessionConfigBuilder)
        ensures
            r.host is None,
            r.port is None,
            r.sender_comp_id is None,
            r.target_comp_id is None,
            r.heartbeat_interval_secs is None,
    {
        SessionConfigBuilder {
            host: None,
            port: None,
            sender_comp_id: None,
            target_comp_id: None,
            heartbeat_interval_secs: None,
        }
    }
}

/// Collects session settings one by one; `build` demands the four
/// required ones and defaults the heartbeat interval to thirty
/// seconds.
#[derive(Debug, PartialEq)]
pub struct SessionConfigBuilder {
    /// Host, required.
    pub host: Option<String>,
    /// Port, required.
    pub port: Option<u16>,
    /// Our comp id, required.
    pub sender_comp_id: Option<String>,
    /// The counterparty's comp id, required.
    pub target_comp_id: Option<String>,
    /// Heartbeat interval, optional.
    pub heartbeat_interval_secs: Option<u32>,
}

impl SessionConfigBuilder {
    /// Sets the host.
    pub fn host(self, host: String) -> (r: SessionConfigBuilder)
        ensures
            r.host == Some(host),
            r.port == self.port,
            r.sender_comp_id == self.sender_comp_id,
            r.target_comp_id == self.target_comp_id,
            r.heartbeat_interval_secs == self.heartbeat_interval_secs,
    {
        SessionConfigBuilder { host: Some(host), ..self }
    }

    /// Sets the port.
    pub fn port(self, port: u16) -> (r: SessionConfigBuilder)
        ensures
            r.port == Some(port),
            r.host == self.host,
            r.sender_comp_id == self.sender_comp_id,
            r.target_comp_id == self.target_comp_id,
            r.heartbeat_interval_secs == self.heartbeat_interval_secs,
    {
        SessionConfigBuilder { port: Some(port), ..self }
    }

    /// Sets our comp id.
    pub fn sender_comp_id(self, v: String) -> (r: SessionConfigBuilder)
        ensures
            r.sender_comp_id == Some(v),
            r.host == self.host,
            r.port == self.port,
            r.target_comp_id == self.target_comp_id,
            r.heartbeat_interval_secs == self.heartbeat_interval_secs,
    {
        SessionConfigBuilder { sender_comp_id: Some(v), ..self }
    }

    /// Sets the counterparty's comp id.
    pub fn target_comp_id(self, v: String) -> (r: SessionConfigBuilder)
        ensures
            r.target_comp_id == Some(v),
            r.host == self.host,
            r.port == self.port,
            r.sender_comp_id == self.sender_comp_id,
            r.heartbeat_interval_secs == self.heartbeat_interval_secs,
    {
        SessionConfigBuilder { target_comp_id: Some(v), ..self }
    }

    /// Sets the heartbeat interval.
    pub fn heartbeat_interval_secs(self, v: u32) -> (r: SessionConfigBuilder)
        ensures
            r.heartbeat_interval_secs == Some(v),
            r.host == self.host,
            r.port == self.port,
            r.sender_comp_id == self.sender_comp_id,
            r.target_comp_id == self.target_comp_id,
    {
        SessionConfigBuilder { heartbeat_interval_secs: Some(v), ..self }
    }

    /// Finishes the configuration: each missing required setting is an
    /// `InvalidConfig` error, in the order host, port, sender comp id,
    /// target comp id; a missing interval becomes thirty seconds.
    pub fn build(self) -> (r: Result<SessionConfig, FixgError>)
        ensures
            match r {
                Ok(cfg) => {
                    &&& self.host == Some(cfg.host)
                    &&& self.port == Some(cfg.port)
                    &&& self.sender_comp_id == Some(cfg.sender_comp_id)
                    &&& self.target_comp_id == Some(cfg.target_comp_id)
                    &&& match self.heartbeat_interval_secs {
                        Some(v) => cfg.heartbeat_interval_secs == v,
                        None => cfg.heartbeat_interval_secs == 30,
                    }
                },
                Err(e) => (self.host is None || self.port is None || self.sender_comp_id is None
                    || self.target_comp_id is None) && (e matches FixgError::InvalidConfig(s)
                    && s@ == (if self.host is None {
                    "host missing"@
                } else if self.port is None {
                    "port missing"@
                } else if self.sender_comp_id is None {
                    "sender_comp_id missing"@
                } else {
                    "target_comp_id missing"@
                })),
            },
            (r is Ok) <==> (self.host is Some && self.port is Some && self.sender_comp_id is Some
                && self.target_comp_id is Some),
    {
        let host = match self.host {
            Some(h) => h,
            None => {
                return Err(FixgError::InvalidConfig("host missing".to_owned()));
            },
        };
        let port = match self.port {
            Some(p) => p,
            None => {
                return Err(FixgError::InvalidConfig("port missing".to_owned()));
            },
        };
        let sender_comp_id = match self.sender_comp_id {
            Some(s) => s,
            None => {
                return Err(FixgError::InvalidConfig("sender_comp_id missing".to_owned()));
            },
        };
        let target_comp_id = match self.target_comp_id {
            Some(t) => t,
            None => {
                return Err(FixgError::InvalidConfig("target_comp_id missing".to_owned()));
            },
        };
        let heartbeat_interval_secs: u32 = match self.heartbeat_interval_secs {
            Some(v) => v,
            None => 30,
        };
        Ok(SessionConfig { host, port, sender_comp_id, target_comp_id, heartbeat_interval_secs })
    }
}

} // verus!
