//! Host-side core of a serial firmware-update (OTA) link: a byte-stuffing
//! frame codec that turns a delimiter-free byte stream into discrete
//! application messages, the request/response message contract layered on it,
//! and the windowed block-transfer engine that reliably delivers a firmware
//! image despite packet loss, with acknowledgment tracking, selective
//! retransmission, and a bounded in-flight window.
//!
//! The codec and the engine are pure: all I/O — the serial channel, timeouts,
//! the round loop's timing — stays with the caller, which hands bytes and
//! responses in and takes frames and requests out.

pub mod codec;
pub mod digest;
pub mod engine;
pub mod messages;
