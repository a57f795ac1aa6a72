//! Indexing of SafeTensors checkpoints and grouping of their tensors into
//! logical transformer blocks.
//!
//! This is a weight loader, not an inference engine. It takes checkpoints as
//! they are - a single file, shards with an index, or a directory of shards -
//! and works on the bytes of their files, usually memory-mapped, without copying
//! them: it describes every tensor by its byte range and groups tensors into
//! blocks by configurable name prefixes. The bookkeeping of an engine that
//! streams those blocks to a GPU stands here too.
//!
//! The crate does no input or output of its own. Where a model is opened,
//! [`opening::Opening`] says step by step what has to be looked up and takes the
//! answers.

pub mod block;
pub mod block_laws;
pub mod catalog;
pub mod checksum;
pub mod cli;
pub mod descriptor;
pub mod discovery;
pub mod dlpack;
pub mod engine;
pub mod engine_laws;
pub mod engine_plan;
pub mod engine_runs;
pub mod error;
pub mod header;
pub mod model;
pub mod model_laws;
pub mod name_map;
pub mod opening;
pub mod opening_laws;
pub mod path;
pub mod residency;
pub mod shard;
pub mod text;

pub use block::{Block, BlockConfig, BlockFamily, UNASSIGNED};
pub use checksum::TensorChecksum;
pub use descriptor::{Dtype, ShardId, TensorDescriptor};
pub use error::{LoaderError, Result};
pub use model::{CopiedBlock, Model, ModelIds, OpenOptions, TensorLayout};
pub use path::FilePath;
