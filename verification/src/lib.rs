//! Protocol and text logic of the CYD miner companion: stratum job building,
//! share checks, board discovery parsing and the phone-monitor pairing API.

pub mod text;
pub mod codec;
pub mod json;
pub mod target;
pub mod stratum;
pub mod client;
pub mod monitor_api;
pub mod miner;
pub mod workers;
pub mod fleet;
pub mod discovery;
pub mod ports;
pub mod update;
