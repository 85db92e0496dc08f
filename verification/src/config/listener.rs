//! The listener's settings: where it listens.
use std::num::ParseIntError;
use vstd::prelude::*;

use crate::text::{parse_u16, parse_unsigned};

verus! {

pub const LISTENER_ADDRESS_ENV: &'static str = "LISTENER_ADDRESS";

pub const LISTENER_PORT_ENV: &'static str = "LISTENER_PORT";

/// Where the listener listens.
#[derive(Debug)]
pub struct Config {
    pub listener_address: String,
    pub listener_port: u16,
}

/// Why the listener's settings cannot be made.
#[derive(Debug)]
pub enum ConfigError {
    /// `LISTENER_ADDRESS` is not set.
    MissingListenerAddress,
    /// `LISTENER_PORT` is not set.
    MissingListenerPort,
    /// `LISTENER_PORT` is not a `u16`.
    InvalidPort(ParseIntError),
}

impl Config {
    /// The settings made of the variables' values: both must be there, and the
    /// port must be a `u16`.
    pub fn new(listener_address: Option<String>, listener_port: Option<String>) -> (r: Result<
        Config,
        ConfigError,
    >)
        ensures
            listener_address is None ==> r matches Err(ConfigError::MissingListenerAddress),
            listener_address is Some && listener_port is None ==> r matches Err(
                ConfigError::MissingListenerPort,
            ),
            listener_address is Some && listener_port is Some ==> match parse_unsigned(
                listener_port->0@,
                u16::MAX as nat,
            ) {
                Some(n) => r matches Ok(c) && c.listener_address == listener_address->0
                    && c.listener_port == n,
                None => r matches Err(ConfigError::InvalidPort(_)),
            },
    {
        let listener_address = match listener_address {
            Some(a) => a,
            None => return Err(ConfigError::MissingListenerAddress),
        };
        let port_text = match listener_port {
            Some(p) => p,
            None => return Err(ConfigError::MissingListenerPort),
        };
        match parse_u16(port_text.as_str()) {
            Ok(listener_port) => Ok(Config { listener_address, listener_port }),
            Err(e) => Err(ConfigError::InvalidPort(e)),
        }
    }
}

} // verus!
