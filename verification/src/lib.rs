//! Paged key/value cache management: a reference-counted block pool, block
//! tables with copy-on-write forks, a continuous-batching scheduler, and the
//! storage seam under them.

pub mod address;
pub mod allocator;
pub mod backend;
pub mod behaviour;
pub mod block_table;
pub mod budget;
pub mod chronicle;
pub mod config;
pub mod cpu;
pub mod demo;
pub mod drain;
pub mod error;
pub mod launch;
pub mod laws;
pub mod ledger;
pub mod outcomes;
pub mod pool;
pub mod progress;
pub mod schedule;
pub mod scheduler;
pub mod soundness;
pub mod store;
pub mod table;
pub mod text;
pub mod turns;
pub mod types;
pub mod wording;

pub use allocator::BlockAllocator;
pub use backend::KvBackend;
pub use block_table::{BlockTable, CowCopy};
pub use config::CacheConfig;
pub use cpu::CpuBackend;
pub use error::CacheError;
pub use scheduler::{BlockInfo, DecodedToken, RunningInfo, Scheduler, StepOutcome};
pub use types::{BlockId, PhysicalSlot, SeqId};
