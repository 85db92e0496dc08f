//! The server's settings, checked as the environment hands them over.
use vstd::prelude::*;

use crate::text::{join_text, parse_u16, parse_u64, parse_unsigned};

pub mod http;
pub mod listener;

verus! {

pub const SERVER_ADDRESS: &'static str = "SERVER_ADDRESS";

pub const SERVER_PORT: &'static str = "SERVER_PORT";

pub const SYNC_INTERVAL: &'static str = "SYNC_INTERVAL";

pub const WAL_PATH: &'static str = "WAL_PATH";

/// The shortest interval, in seconds, between syncs of the append-only file.
pub const MIN_SYNC_INTERVAL_SECS: u64 = 30u64;

/// The server's settings.
#[derive(Debug)]
pub struct Config {
    pub server_address: String,
    pub server_port: u16,
    /// Seconds between syncs of the append-only file.
    pub sync_interval_secs: u64,
    /// Where the append-only file lives, when not in its default place.
    pub wal_path: Option<String>,
}

/// A setting that is missing or wrong; each names its variable.
#[derive(Debug)]
pub enum SettingError {
    Unset(&'static str),
    InvalidPort(&'static str),
    InvalidSeconds(&'static str),
    IntervalTooShort(&'static str),
}

/// The settings made of the variables' values, or the first problem with them,
/// checked in the order: address, port, sync interval.
pub open spec fn settings_outcome(
    address: Option<Seq<char>>,
    port: Option<Seq<char>>,
    interval: Option<Seq<char>>,
) -> Result<(Seq<char>, u16, u64), SettingError> {
    match (address, port, interval) {
        (None, _, _) => Err(SettingError::Unset(SERVER_ADDRESS)),
        (Some(_), None, _) => Err(SettingError::Unset(SERVER_PORT)),
        (Some(a), Some(p), i) => match parse_unsigned(p, u16::MAX as nat) {
            None => Err(SettingError::InvalidPort(SERVER_PORT)),
            Some(port) => match i {
                None => Err(SettingError::Unset(SYNC_INTERVAL)),
                Some(i) => match parse_unsigned(i, u64::MAX as nat) {
                    None => Err(SettingError::InvalidSeconds(SYNC_INTERVAL)),
                    Some(secs) => if secs < MIN_SYNC_INTERVAL_SECS {
                        Err(SettingError::IntervalTooShort(SYNC_INTERVAL))
                    } else {
                        Ok((a, port as u16, secs as u64))
                    },
                },
            },
        },
    }
}

pub open spec fn opt_view(s: Option<String>) -> Option<Seq<char>> {
    match s {
        Some(s) => Some(s@),
        None => None,
    }
}

impl Config {
    /// The settings made of the variables' values: the address and port are
    /// required, the port must be a `u16`, the sync interval a number of
    /// seconds no smaller than `MIN_SYNC_INTERVAL_SECS`; the path is optional.
    pub fn from_settings(
        server_address: Option<String>,
        server_port: Option<String>,
        sync_interval: Option<String>,
        wal_path: Option<String>,
    ) -> (r: Result<Config, SettingError>)
        ensures
            match settings_outcome(
                opt_view(server_address),
                opt_view(server_port),
                opt_view(sync_interval),
            ) {
                Ok((a, p, s)) => r matches Ok(c) && c.server_address@ == a && c.server_port == p
                    && c.sync_interval_secs == s && c.wal_path == wal_path,
                Err(e) => r == Err::<Config, SettingError>(e),
            },
    {
        let server_address = match server_address {
            Some(a) => a,
            None => return Err(SettingError::Unset(SERVER_ADDRESS)),
        };
        let port_text = match server_port {
            Some(p) => p,
            None => return Err(SettingError::Unset(SERVER_PORT)),
        };
        let server_port = match parse_u16(port_text.as_str()) {
            Ok(port) => port,
            Err(_) => return Err(SettingError::InvalidPort(SERVER_PORT)),
        };
        let interval_text = match sync_interval {
            Some(i) => i,
            None => return Err(SettingError::Unset(SYNC_INTERVAL)),
        };
        let sync_interval_secs = match parse_u64(interval_text.as_str()) {
            Ok(secs) => secs,
            Err(_) => return Err(SettingError::InvalidSeconds(SYNC_INTERVAL)),
        };
        if sync_interval_secs < MIN_SYNC_INTERVAL_SECS {
            return Err(SettingError::IntervalTooShort(SYNC_INTERVAL));
        }
        Ok(Config { server_address, server_port, sync_interval_secs, wal_path })
    }
}

/// The message a setting error is reported with.
pub open spec fn setting_error_text(e: SettingError) -> Seq<char> {
    match e {
        SettingError::Unset(var) => var@ + " must be set"@,
        SettingError::InvalidPort(var) => var@ + " must be a valid u16"@,
        SettingError::InvalidSeconds(var) => var@ + " must be a number of seconds"@,
        SettingError::IntervalTooShort(var) => var@ + " must be at least 30 seconds"@,
    }
}

impl SettingError {
    /// The error's message.
    pub fn to_string(&self) -> (r: String)
        ensures
            r@ == setting_error_text(*self),
    {
        match self {
            SettingError::Unset(var) => join_text(var, " must be set"),
            SettingError::InvalidPort(var) => join_text(var, " must be a valid u16"),
            SettingError::InvalidSeconds(var) => join_text(var, " must be a number of seconds"),
            SettingError::IntervalTooShort(var) => join_text(var, " must be at least 30 seconds"),
        }
    }
}

} // verus!
