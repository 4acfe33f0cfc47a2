//! Privacy-preserving cross-party record linkage and aggregation.
//!
//! Several independent data holders ("parties") each hold client records as
//! (token, score) pairs, where the token is a deterministic pseudonym of the
//! client derived from the entity id and the party id. The aggregation engine
//! — run by the compute party, which alone holds the decryption capability and
//! therefore may see tokens, but never scores of other parties in a deployed
//! setting — groups the pooled records into equivalence classes of equal
//! tokens by pairwise comparison, and accumulates one (sum, count) aggregate
//! per class. The disclosure gate releases a decrypted aggregate to a party
//! only when a quorum of parties holds the token, and a denial looks the same
//! whether the token is unknown elsewhere or the quorum is simply not met.
//!
//! The ciphertext transport (sealing records, homomorphic addition and
//! equality under a shared keypair) is a capability of an outside
//! fully-homomorphic-encryption runtime and is wrapped around this library by
//! its caller; every grouping, accumulation and disclosure decision that the
//! transport carries out is specified and verified here on the compute
//! party's view of the data.

pub mod engine;
pub mod errors;
pub mod gate;
pub mod model;
pub mod store;
pub mod token;
