//! A clipboard-history capture engine.
//!
//! The engine repeatedly samples the operating system clipboard (through a
//! thin I/O shell), reconciles the competing representations of one copy
//! event (rendered bitmap, raw device-independent bitmap, dropped files,
//! HTML fragment, plain text), converts the winner into a canonical record,
//! deduplicates it against history, and maintains a bounded, recency-ordered
//! log of records plus content-addressed image blobs.
//!
//! All decisions live here and are verified; reading the clipboard, the
//! filesystem and the clock is left to the surrounding application, which
//! hands the engine plain values.

pub mod blob;
pub mod capture;
pub mod clock;
pub mod codec;
pub mod dib;
pub mod digest;
pub mod history;
pub mod imagecodec;
pub mod digits;
pub mod item;
pub mod migrate;
pub mod ops;
pub mod settings;
pub mod text;
