//! Program configuration.

use vstd::prelude::*;

verus! {

/// Settings of the program: the UDP port to listen on.
#[derive(Debug, Clone, Copy, PartialEq, Eq, Structural)]
pub struct AppConfig {
    pub port: u16,
}

impl AppConfig {
    /// Settings with the given port.
    pub fn new(port: u16) -> (c: AppConfig)
        ensures
            c.port == port,
    {
        AppConfig { port }
    }

    /// The port to listen on.
    pub fn port(&self) -> (p: u16)
        ensures
            p == self.port,
    {
        self.port
    }
}

/// Network settings: the UDP port to listen on.
#[derive(Debug, Clone, Copy, PartialEq, Eq, Structural)]
pub struct Config {
    pub port: u16,
}

impl Config {
    /// Settings with the given port.
    pub fn new(port: u16) -> (c: Config)
        ensures
            c.port == port,
    {
        Config { port }
    }

    /// The port to listen on.
    pub fn port(&self) -> (p: u16)
        ensures
            p == self.port,
    {
        self.port
    }
}

} // verus!
