//! Focus-time tracking: an append-only event log of window-focus changes and
//! power markers, and the engine that rebuilds active sessions from that log
//! to produce duration reports and fixed-width timelines.

pub mod event;
pub mod interval;
pub mod settings;
pub mod session;
pub mod reader;
pub mod replay;
pub mod clock;
pub mod config;
pub mod durations;
pub mod format;
pub mod timeline;
pub mod laws;
pub mod model;
pub mod text;
pub mod writer;
