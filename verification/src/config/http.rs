//! The HTTP front end's settings: where it serves, and where the key-value
//! server it talks to listens.
use vstd::prelude::*;

use crate::config::{opt_view, SettingError, SERVER_ADDRESS, SERVER_PORT};
use crate::text::{parse_u16, parse_unsigned};

verus! {

pub const KV_SERVER_ADDRESS: &'static str = "KV_SERVER_ADDRESS";

pub const KV_SERVER_PORT: &'static str = "KV_SERVER_PORT";

/// Where the front end serves, and where it finds the key-value server.
#[derive(Debug)]
pub struct Config {
    pub server_address: String,
    pub server_port: u16,
    pub kv_server_address: String,
    pub kv_server_port: u16,
}

/// A port setting: it must be there, and be a `u16`.
pub open spec fn port_outcome(text: Option<Seq<char>>, var: &'static str) -> Result<u16, SettingError> {
    match text {
        None => Err(SettingError::Unset(var)),
        Some(t) => match parse_unsigned(t, u16::MAX as nat) {
            None => Err(SettingError::InvalidPort(var)),
            Some(p) => Ok(p as u16),
        },
    }
}

/// The settings made of the variables' values, or the first problem with
/// them, checked in the order: address, port, server address, server port.
pub open spec fn http_settings_outcome(
    address: Option<Seq<char>>,
    port: Option<Seq<char>>,
    kv_address: Option<Seq<char>>,
    kv_port: Option<Seq<char>>,
) -> Result<(Seq<char>, u16, Seq<char>, u16), SettingError> {
    match address {
        None => Err(SettingError::Unset(SERVER_ADDRESS)),
        Some(a) => match port_outcome(port, SERVER_PORT) {
            Err(e) => Err(e),
            Ok(p) => match kv_address {
                None => Err(SettingError::Unset(KV_SERVER_ADDRESS)),
                Some(ka) => match port_outcome(kv_port, KV_SERVER_PORT) {
                    Err(e) => Err(e),
                    Ok(kp) => Ok((a, p, ka, kp)),
                },
            },
        },
    }
}

/// Reads a port setting.
fn port_setting(text: Option<String>, var: &'static str) -> (r: Result<u16, SettingError>)
    ensures
        r == port_outcome(opt_view(text), var),
{
    match text {
        None => Err(SettingError::Unset(var)),
        Some(t) => match parse_u16(t.as_str()) {
            Ok(port) => Ok(port),
            Err(_) => Err(SettingError::InvalidPort(var)),
        },
    }
}

impl Config {
    /// The settings made of the variables' values: all four are required, and
    /// both ports must be `u16`s.
    pub fn from_settings(
        server_address: Option<String>,
        server_port: Option<String>,
        kv_server_address: Option<String>,
        kv_server_port: Option<String>,
    ) -> (r: Result<Config, SettingError>)
        ensures
            match http_settings_outcome(
                opt_view(server_address),
                opt_view(server_port),
                opt_view(kv_server_address),
                opt_view(kv_server_port),
            ) {
                Ok((a, p, ka, kp)) => r matches Ok(c) && c.server_address@ == a && c.server_port
                    == p && c.kv_server_address@ == ka && c.kv_server_port == kp,
                Err(e) => r == Err::<Config, SettingError>(e),
            },
    {
        let server_address = match server_address {
            Some(a) => a,
            None => return Err(SettingError::Unset(SERVER_ADDRESS)),
        };
        let server_port = match port_setting(server_port, SERVER_PORT) {
            Ok(p) => p,
            Err(e) => return Err(e),
        };
        let kv_server_address = match kv_server_address {
            Some(a) => a,
            None => return Err(SettingError::Unset(KV_SERVER_ADDRESS)),
        };
        let kv_server_port = match port_setting(kv_server_port, KV_SERVER_PORT) {
            Ok(p) => p,
            Err(e) => return Err(e),
        };
        Ok(Config { server_address, server_port, kv_server_address, kv_server_port })
    }
}

} // verus!
