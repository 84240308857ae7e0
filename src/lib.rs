//! Core of a multi-application TCP reverse proxy: application records, the
//! round-robin target pool with failover bookkeeping, and the decisions of the
//! duplex relay. Sockets and threads are driven by the binary around it.
pub mod config;
pub mod pool;
pub mod relay;
