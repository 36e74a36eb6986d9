//! Decision logic of a node in a PBFT-style agreement protocol.
//!
//! A node stores incoming proposals, learns which peers are alive for each
//! proposal, collects "favor" signals from peers that saw the same proposal,
//! and collects votes until a quorum of `2f + 1` is reached, at which point it
//! answers the client once.
pub mod config;
pub mod ips;
pub mod metadata;
pub mod node;
pub mod vote_table;
