//! Core data model for a user-defined SSH tunnel.

use vstd::prelude::*;

verus! {

pub const DEFAULT_PROBE_URL: &'static str = "http://www.gstatic.com/generate_204";

/// The default probe address.
pub fn default_probe_url() -> (r: String)
    ensures
        r@ == DEFAULT_PROBE_URL@,
{
    DEFAULT_PROBE_URL.to_owned()
}

/// Tunnels reconnect by default.
pub fn default_true() -> (r: bool)
    ensures
        r,
{
    true
}

/// A local forward targets the server itself by default.
pub fn default_target_host() -> (r: String)
    ensures
        r@ == "127.0.0.1"@,
{
    "127.0.0.1".to_owned()
}

pub open spec fn is_lower_hex(c: char) -> bool {
    ('0' <= c <= '9') || ('a' <= c <= 'f')
}

/// What every identifier `new_id` hands out looks like: a version-4 UUID
/// written as 32 lowercase hex digits.
pub open spec fn is_simple_uuid_v4(s: Seq<char>) -> bool {
    &&& s.len() == 32
    &&& forall|i: int| 0 <= i < 32 ==> is_lower_hex(#[trigger] s[i])
    &&& s[12] == '4'
}

/// `uuid::Uuid::new_v4().simple().to_string()`: a random UUID, version 4,
/// in the "simple" format. The uuid crate formats each of its 16 bytes as
/// two lowercase hex digits and sets the version nibble (the 13th digit) to
/// 4; the other digits are random.
#[verifier::external_body]
fn random_uuid_simple() -> (s: String)
    ensures
        is_simple_uuid_v4(s@),
{
    uuid::Uuid::new_v4().simple().to_string()
}

/// The user's display preferences.
#[derive(Debug, Default, PartialEq)]
pub struct Prefs {
    /// "zh", "en", or empty for "not chosen yet" (the UI then follows the OS).
    pub lang: String,
    /// "system", "light" or "dark".
    pub theme: String,
}

/// A fresh random identifier for a tunnel.
pub fn new_id() -> (s: String)
    ensures
        is_simple_uuid_v4(s@),
{
    random_uuid_simple()
}

/// What kind of forwarding a tunnel sets up.
#[derive(Clone, Copy, Debug, PartialEq, Eq, Structural)]
pub enum TunnelKind {
    /// `ssh -D`: a local SOCKS5 proxy.
    Socks,
    /// `ssh -L`: local port -> `target_host:remote_port` as seen from the server.
    Local,
    /// `ssh -R`: server `0.0.0.0:remote_port` -> local `127.0.0.1:port`.
    Remote,
}

impl Default for TunnelKind {
    fn default() -> (k: Self)
        ensures
            k == TunnelKind::Socks,
    {
        TunnelKind::Socks
    }
}

impl TunnelKind {
    pub open spec fn listens_locally_spec(self) -> bool {
        self == TunnelKind::Socks || self == TunnelKind::Local
    }

    /// Whether ssh listens on the local `port` (vs. connecting to it).
    pub fn listens_locally(self) -> (b: bool)
        ensures
            b == self.listens_locally_spec(),
    {
        match self {
            TunnelKind::Socks | TunnelKind::Local => true,
            TunnelKind::Remote => false,
        }
    }
}

/// A saved tunnel definition (persisted to disk).
#[derive(Debug)]
pub struct Tunnel {
    pub name: String,
    /// The ssh_config Host alias.
    pub host: String,
    pub kind: TunnelKind,
    /// Socks/Local: the local listen port. Remote: the local service port.
    pub port: u16,
    /// Local: target port on the server side. Remote: port opened on the server.
    pub remote_port: u16,
    /// Local only: target address as seen from the server (loopback or LAN).
    pub target_host: String,
    pub probe_url: String,
    pub auto_reconnect: bool,
    pub id: String,
}

impl Clone for Tunnel {
    fn clone(&self) -> (r: Self)
        ensures
            r == *self,
    {
        Tunnel {
            name: self.name.clone(),
            host: self.host.clone(),
            kind: self.kind,
            port: self.port,
            remote_port: self.remote_port,
            target_host: self.target_host.clone(),
            probe_url: self.probe_url.clone(),
            auto_reconnect: self.auto_reconnect,
            id: self.id.clone(),
        }
    }
}

#[derive(Clone, Copy, Debug, PartialEq, Eq, Structural)]
pub enum TunnelState {
    Stopped,
    Connecting,
    Connected,
    Error,
}

impl Default for TunnelState {
    fn default() -> (s: Self)
        ensures
            s == TunnelState::Stopped,
    {
        TunnelState::Stopped
    }
}

impl TunnelState {
    pub open spec fn active_spec(self) -> bool {
        self == TunnelState::Connecting || self == TunnelState::Connected
    }

    pub fn active(self) -> (b: bool)
        ensures
            b == self.active_spec(),
    {
        match self {
            TunnelState::Connecting | TunnelState::Connected => true,
            _ => false,
        }
    }
}

} // verus!
