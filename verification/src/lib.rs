//! # oxide-federation
//!
//! Multi-node GPU cluster federation with ternary health states,
//! gossip-based health propagation, work stealing, quorum decisions,
//! and graceful degradation.
//!
//! [`FederationManager`] is specified over [`manager::FederationModel`]: the
//! keys and nodes in walk order, the gossip log and the overload threshold. Each
//! operation has a mathematical counterpart on that model, and its contract says
//! that it computes it. The laws of the federation are public proof functions,
//! named `law_*`, in the module of the operation they speak of.

pub mod binary64;
pub mod degradation;
pub mod gossip;
pub mod health;
pub mod lists;
pub mod manager;
pub mod node;
pub mod quorum;
pub mod ranking;
pub mod routing;
pub mod stealing;
pub mod sums;
pub mod transfer;

pub use crate::binary64::Binary64;
pub use crate::gossip::GossipMessage;
pub use crate::health::Health;
pub use crate::manager::FederationManager;
pub use crate::node::ClusterNode;
pub use crate::quorum::QuorumResult;
