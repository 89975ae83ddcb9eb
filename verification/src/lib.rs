//! Chunk streaming for a voxel world.
//!
//! The heart of the crate is a producer/consumer cache: a bounded,
//! coordinate-keyed [`cache::ChunkCache`] with least-recently-used eviction,
//! and the [`loader::ChunkLoader`] that turns the coordinates a renderer
//! needs into generation jobs for a pool of workers, never dispatching a
//! coordinate twice while it is in flight. Around it stand the integer
//! pieces of the engine: the [`ratelimiter`], the enumeration of the chunks
//! around a position ([`nearby`], [`spiral`]), the block volume of a chunk
//! ([`terrain`]), the mesher that merges its visible faces into rectangles
//! ([`mesh`]), and the renderer's settings and face culling ([`renderer`]).
//!
//! Everything here is plain data and decisions, stated over maps, sets and
//! sequences and proved. Threads, channels, the graphics context and the
//! floating-point noise live with the caller, which feeds blocks and
//! finished chunks in and carries dispatches out. The one thing the crate
//! reads from outside is the time ([`clock`]), and every function that does
//! has a twin that takes the time as an argument.

pub mod cache;
pub mod chunk;
pub mod clock;
pub mod coord;
pub mod coord_set;
pub mod loader;
pub mod mesh;
pub mod nearby;
pub mod ratelimiter;
pub mod renderer;
pub mod spiral;
pub mod terrain;
