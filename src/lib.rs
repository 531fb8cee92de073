//! Persistent state layer of a certificate aggregation service: an in-memory
//! key-value engine that keeps its writes as a log, the exit tree, sparse Merkle tree and
//! certificate ledger stores built on it, the byte codecs of what is
//! persisted, and the per-network rate limiter.

pub mod codec;
pub mod error;
pub mod exit_tree;
pub mod limiter;
pub mod network_state;
pub mod smt;
pub mod store;
pub mod table;
pub mod types;

pub use error::Error;
pub use limiter::{LimiterCore, RateLimited, RateLimiter, SlotTracker};
pub use store::StateStore;
pub use table::{Table, TableKey};
pub use types::{
    Certificate, CertificateHeader, CertificateId, CertificateIndex, CertificatePerNetworkKey,
    CertificateStatus, EpochNumber, ExitTreeKey, Digest, Height, LocalExitTree, LocalNetworkStateData,
    NetworkId, Node, SettledCertificate, Smt, SmtKey, SmtKeyType, SmtValue, EXIT_TREE_DEPTH,
    LOCAL_BALANCE_TREE_DEPTH, NULLIFIER_TREE_DEPTH,
};
