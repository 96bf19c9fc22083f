//! Verified core of a peer-to-peer image sharing system: the message wire
//! format spoken between cloud servers, the leader-election and request
//! handling decisions of a server, and the lease bookkeeping of a client.

pub mod text;
pub mod wire;
pub mod address;
pub mod commands;
pub mod roster;
pub mod intake;
pub mod peers;
pub mod election;
pub mod pages;
pub mod leases;
