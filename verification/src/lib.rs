//! Verified core of EZ2DEMOSCENE: the plain choices of the scene model, the
//! deterministic random numbers, the MIDI file reader, the in-memory asset
//! store, the node graph's wiring, the counts and seeds of copies, the
//! sequence bookkeeping, export formats and PNG zips, and the pack format.

pub mod assets;
pub mod audio;
pub mod export;
pub mod graph;
pub mod instancing;
pub mod midi;
pub mod music;
pub mod naming;
pub mod order;
pub mod palette;
pub mod param;
pub mod paths;
pub mod rng;
pub mod scene;
pub mod sequence;
pub mod signal;
pub mod store;
pub mod terrain;
pub mod text;
pub mod zipio;
