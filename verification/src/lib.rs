//! The control-surface and bookkeeping logic of a beat-matching practice app:
//! MIDI wire decoding, controller mappings, the learn flow that writes them,
//! the engine's push-back batching and the small rules around recording and files.

pub mod text;
pub mod order;
pub mod wire;
pub mod mapping;
pub mod decode;
pub mod vocabulary;
pub mod learn;
pub mod midi;
pub mod engine_push;
pub mod surface;
pub mod audio;
pub mod recording;
pub mod files;
pub mod cover;
