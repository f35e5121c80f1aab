//! Short-lived BGP announcement detection: a canonical event codec, an
//! append-only event store, a chunked windowed pairing engine, grouping of
//! findings by origin network and cross-referencing against reputation data.

pub mod net;
pub mod event;
pub mod text;
pub mod codec;
pub mod parse;
pub mod canonical;
pub mod store;
pub mod detect;
pub mod threat;
pub mod ingest;
pub mod api;
