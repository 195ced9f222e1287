//! Subtitle generation: cues, windows, jobs and everything around them that can be decided
//! without touching a disk or a socket.

pub mod api;
pub mod auth;
pub mod cues;
pub mod double;
pub mod engine;
pub mod json;
pub mod languages;
pub mod library;
pub mod media;
pub mod order;
pub mod parakeet;
pub mod paths;
pub mod store;
pub mod stt;
pub mod text;
pub mod translate;
