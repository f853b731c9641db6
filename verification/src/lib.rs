//! An in-memory, partition-sharded log store for queries over recent
//! observability data.

pub mod log_entry;
pub mod sorting;
pub mod totals;
pub mod inverted_index;
pub mod offsets;
pub mod partition;
pub mod ring_buffer;
pub mod window_metadata;
pub mod monotonic_stack;
pub mod core_shard;
pub mod vnode_ring;
pub mod routing;
pub mod kafka_offsets;
pub mod codec;
pub mod codec_laws;
pub mod snapshot;
pub mod snapshot_laws;
pub mod truncation_laws;
pub mod store_model;
pub mod store_laws;
pub mod store_effects;
pub mod format_laws;
pub mod history;
pub mod chiron;
pub mod batch;
pub mod settings;
pub mod stats;
pub mod kafka;
pub mod pipeline;

pub use crate::batch::ingest_batch_by_partition;
pub use crate::routing::partition_for_host;
pub use crate::settings::{env_string, env_u32, env_u64, env_usize};
