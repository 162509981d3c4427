//! Rules engine for a simultaneous-turn, multiplayer variant of Go.
//!
//! `uf` holds the liberty-tracking union-find, `board` the grid of tiles and
//! the per-tick propose / commit / capture protocol built on top of it, and
//! `theorems` what holds of whole ticks. Around the engine: `network` reads
//! players' command lines, `auth` checks their logins, `protocol` is the
//! client/server message format, `client` reads a rendered board back, and
//! `text` has the character, word and number handling they share.
pub mod auth;
pub mod board;
pub mod client;
pub mod network;
pub mod protocol;
pub mod text;
pub mod theorems;
pub mod uf;
