//! Core primitives of a swarm file-transfer client: the canonical value
//! codec, the metainfo model, the tracker query and response shapes, the
//! peer wire protocol and the piece download engine.
//!
//! Every function carries a contract over a mathematical model of its data,
//! and the transport itself (sockets, HTTP, files) is left to the caller.
//!
//! - `value`, `dictionary`, `canonical`, `encode`, `decode`, `roundtrip`,
//!   `json`: the canonical codec and its laws.
//! - `torrent`, `metainfo`: the metainfo model and the content identifier.
//! - `tracker`: the announce query and the compact peer list.
//! - `peer`, `wire`: the handshake, the messages and their framing.
//! - `download`, `session`: the block layout, the session states, the
//!   download of a piece and the integrity gate.
//! - `digest`: the digest function and its hexadecimal rendering.

pub mod wire;
pub mod digest;
pub mod peer;
pub mod value;
pub mod dictionary;
pub mod canonical;
pub mod encode;
pub mod decode;
pub mod roundtrip;
pub mod json;
pub mod torrent;
pub mod metainfo;
pub mod download;
pub mod session;
pub mod tracker;

