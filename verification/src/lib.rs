//! Voice-agent building blocks: the speaker-identification timeline and its
//! labelling rules, the streamed command/speech parser of the agent, and the
//! small formats and bookkeeping that surround them.
//!
//! Speaker labels are evidence, never durable identities. Audio offsets are
//! integer sample positions on one source timeline; all queues/history are
//! bounded.

pub mod timeline;
pub mod diarization;
pub mod text;
pub mod text_patterns;
pub mod audio_buffer;
pub mod memory;
pub mod asset;
pub mod fusion;
pub mod store;
pub mod turns;
pub mod commands;
pub mod keyed;
pub mod live;
pub mod chat;
pub mod transcripts;
pub mod gallery;
pub mod unknown;
pub mod intake;
pub mod events;
pub mod wav;
pub mod remote;
pub mod routing;
pub mod json;
