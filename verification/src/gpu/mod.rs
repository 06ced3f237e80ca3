//! Bookkeeping for the buffers a renderer reads: allocation, dirty tracking, residency tiers,
//! streaming and the naming of shared buffers.
pub mod freelist;
pub mod dirty;
pub mod slot_allocator;
pub mod dynamic_buffer;
pub mod var_len_pool;
pub mod interned_pool;
pub mod buffer_registry;
pub mod system_binding;
pub mod runs;
pub mod dirty_tracked_scene_buffer;
pub mod region;
pub mod column_map;
pub mod shared_buffers;
pub mod shared_rules;
pub mod device_agreement;
pub mod device_history;
pub mod device_writes;
pub mod cell_mirror;
pub mod cell_mirror_rules;
pub mod scene_store;
pub mod store_rules;
pub mod var_len_pools;
pub mod single;
pub mod grid;
pub mod grid_executor;
pub mod grid_rules;
pub mod tier_layout;
pub mod byte_arena;
pub mod tier;
pub mod tier_engine;
pub mod placement;
pub mod world_mirror;
pub mod mirror_rules;
pub mod readback;
pub mod scatter_write;
