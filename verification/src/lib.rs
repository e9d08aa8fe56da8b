//! Zero-knowledge relay for multiplayer character chat: the room state
//! machine, its admission and rate-limit rules, the room-code alphabet and the
//! JSON framing of server messages, each with a contract.
pub mod room_code;
mod text;
mod json;
mod crypto;
pub mod protocol;
mod queue;
pub mod config;
pub mod state;
pub mod server;
pub mod ws;
pub mod lobby;
pub mod caching;
pub mod laws;

pub use room_code::valid_room_id;
