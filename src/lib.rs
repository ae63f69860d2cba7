//! Global scheduling core of a serverless platform: the fleet-wide view of
//! worker nodes, the cache-aware placement of invocations on idle workers,
//! the scheduler actor that brokers tasks between callers and workers, the
//! per-request VM lifecycle of a worker, each node's VM bookkeeping, and the
//! framing of the messages that the parties exchange.

pub mod local_manager;
pub mod message;
pub mod resource_manager;
pub mod rpc;
pub mod scheduler;
pub mod worker;
