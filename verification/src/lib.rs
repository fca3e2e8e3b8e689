//! Pulls an AceStream engine stream once and fans it out to many listeners, as
//! audio or as fragmented MP4 with the video track stream-copied.
//!
//! The library decides; it performs no I/O. Bytes and events go in, and what is
//! to be sent, spawned or waited for comes out:
//!
//! - [`http`] and [`engine`] speak with the engine,
//! - [`probe`] and [`format`] choose the tracks and plan the ffmpeg command lines,
//! - [`mp4`] finds the structure in what ffmpeg writes,
//! - [`encoder`], [`stream`] and [`registry`] keep who listens to what,
//! - [`pull`] and [`join`] run a pull and a request step by step,
//! - [`route`] reads requests and the configuration.
//!
//! The modules whose names end in `laws` state what holds of these together.

pub mod box_laws;
pub mod encoder;
pub mod engine;
pub mod engine_laws;
pub mod exchange_laws;
pub mod fan_laws;
pub mod fault_laws;
pub mod feed_laws;
pub mod format;
pub mod format_laws;
pub mod http;
pub mod http_laws;
pub mod join;
pub mod join_laws;
pub mod json;
pub mod life_laws;
pub mod listener_laws;
pub mod mp4;
pub mod octets;
pub mod probe;
pub mod pull;
pub mod pull_laws;
pub mod queue;
pub mod reach_laws;
pub mod registry;
pub mod registry_laws;
pub mod replay;
pub mod route;
pub mod route_laws;
pub mod scan_laws;
pub mod stream;
pub mod supply_laws;
pub mod text;
