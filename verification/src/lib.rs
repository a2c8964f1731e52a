//! Ambient-light core: zone averaging, colour correction, temporal smoothing, the LED wire
//! format and the state machines around capture, publishing, power and the tray.

pub mod app;
pub mod backoff;
pub mod capture;
pub mod config;
pub mod float;
pub mod output;
pub mod pipeline;
pub mod runtime;
pub mod text;
pub mod stats;
pub mod power;
pub mod shutdown;
pub mod tray;
