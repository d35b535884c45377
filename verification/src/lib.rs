//! Core of a disk-backed, page-oriented key-value storage engine.
//!
//! The engine consists of four subsystems: an LRU-K frame replacer, a
//! disk request scheduler with per-page FIFO ordering, a buffer pool
//! manager that caches disk pages in a bounded set of in-memory frames,
//! and an extendible hash table whose header, directory and bucket
//! records live in buffer-pool pages.

pub mod buffer_pool_manager;
pub mod codec;
pub mod disk_manager;
pub mod disk_scheduler;
pub mod error;
pub mod extendible_hash_table;
pub mod extendible_hash_table_bucket_page;
pub mod extendible_hash_table_directory_page;
pub mod extendible_hash_table_header_page;
pub mod hash_math;
pub mod lru_k_replacer;
pub mod page_table;
pub mod page;

pub use crate::buffer_pool_manager::BufferPoolError;
pub use crate::buffer_pool_manager::BufferPoolManager;
pub use crate::disk_manager::DiskManager;
pub use crate::disk_scheduler::CompletedRequest;
pub use crate::disk_scheduler::DiskRequest;
pub use crate::disk_scheduler::DiskRequestQueue;
pub use crate::disk_scheduler::DiskScheduler;
pub use crate::error::ExtendibleHashTableError;
pub use crate::extendible_hash_table::ExtendibleHashTable;
pub use crate::extendible_hash_table_bucket_page::ExtendibleHTableBucketPage;
pub use crate::extendible_hash_table_directory_page::ExtendibleHTableDirectoryPage;
pub use crate::extendible_hash_table_header_page::ExtendibleHTableHeaderPage;
pub use crate::lru_k_replacer::AccessType;
pub use crate::lru_k_replacer::LruKNode;
pub use crate::lru_k_replacer::LruKReplacer;
pub use crate::page::Page;
pub use crate::page::PAGE_SIZE;
